//! The solution enumerator: hands the formulas of a model to the solver and
//! returns distinct valid selections.
//!
//! The solver is not trusted. Every answer is checked here against the
//! formulas and against the answers before it, so what this module returns
//! is proved to be a list of distinct valid selections whatever the solver
//! said. What is not proved is that the solver finds a selection where one
//! exists.

use crate::encode::{constraints, encode};
use crate::formula::{props, satisfies_all, satisfies_all_in, Assignment, Formula, Prop, Valuation, Var};
use crate::model::{group_names, names_of_groups, texts, Data, ModelView};
use crate::oracle::{
    at_least, at_most, bool_and, bool_implies, bool_not, bool_or, bool_value, clone_bool,
    constant_bool, first_solutions, fresh_bool, new_solver, nul_free, solver_assert, MAX_ARITY,
    MAX_COUNT,
};
use crate::selection::{
    everything, lemma_constraints_meaning, lemma_partition_has_one_selection, partitioned,
    valid_selection,
};
use vstd::prelude::*;
use vstd::string::StrSliceExecFns;
use z3::ast::Bool;

verus! {

/// Why no selections were returned.
#[derive(Clone, Copy, PartialEq, Eq, Structural, Debug)]
pub enum SolveError {
    /// The name of an item or of a group holds a NUL character, so no
    /// variable of the solver can carry it.
    BadName,
    /// A formula has more parts or asks for a larger count than the solver
    /// takes, or there are more items or groups than the solver takes.
    TooLarge,
    /// An answer of the solver is not a full assignment, or does not satisfy
    /// the formulas, or repeats an answer before it.
    Oracle,
}

/// How many selections are asked for, unless the caller says otherwise.
pub const DEFAULT_LIMIT: usize = 10;

/// Every name is free of NUL characters.
pub open spec fn all_nul_free(names: Seq<Seq<char>>) -> bool {
    forall|i: int| 0 <= i < names.len() ==> nul_free(#[trigger] names[i])
}

/// Every item name and every group name of the model is free of NUL characters.
pub open spec fn names_ok(m: ModelView) -> bool {
    all_nul_free(m.names) && all_nul_free(group_names(m.groups))
}

/// No conjunction, disjunction or counting formula inside `p` has more than
/// `MAX_ARITY` parts, and no counting formula asks for more than `MAX_COUNT`.
pub open spec fn solver_sized(p: Prop) -> bool
    decreases p,
{
    match p {
        Prop::Var(_) => true,
        Prop::Not(f) => solver_sized(*f),
        Prop::And(fs) => fs.len() <= MAX_ARITY && forall|i: int|
            0 <= i < fs.len() ==> solver_sized(#[trigger] fs[i]),
        Prop::Or(fs) => fs.len() <= MAX_ARITY && forall|i: int|
            0 <= i < fs.len() ==> solver_sized(#[trigger] fs[i]),
        Prop::Implies(a, b) => solver_sized(*a) && solver_sized(*b),
        Prop::AtLeast(vars, k) => vars.len() <= MAX_ARITY && k <= MAX_COUNT,
        Prop::AtMost(vars, k) => vars.len() <= MAX_ARITY && k <= MAX_COUNT,
    }
}

/// Every formula of the list is solver sized.
pub open spec fn all_solver_sized(cs: Seq<Prop>) -> bool {
    forall|i: int| 0 <= i < cs.len() ==> solver_sized(#[trigger] cs[i])
}

/// The solver takes the problem: every formula is solver sized, and there
/// are no more than `MAX_ARITY` items and no more than `MAX_ARITY` groups.
pub open spec fn solver_takes(cs: Seq<Prop>, n_items: nat, n_groups: nat) -> bool {
    all_solver_sized(cs) && n_items <= MAX_ARITY && n_groups <= MAX_ARITY
}

/// Whether the text holds a NUL character.
pub fn has_nul(s: &str) -> (r: bool)
    ensures
        r == !nul_free(s@),
{
    let n = s.unicode_len();
    let mut i: usize = 0;
    while i < n
        invariant
            i <= n,
            n == s@.len(),
            forall|k: int| 0 <= k < i ==> s@[k] != '\0',
        decreases n - i,
    {
        if s.get_char(i) == '\0' {
            return true;
        }
        i += 1;
    }
    false
}

/// One fresh solver variable per name, in the order of the names; `None` if
/// a name holds a NUL character.
fn fresh_vars(names: &Vec<String>) -> (r: Option<Vec<Bool>>)
    ensures
        r is Some <==> all_nul_free(texts(names@)),
        r matches Some(vars) ==> vars@.len() == names@.len(),
{
    let mut vars: Vec<Bool> = Vec::new();
    let mut i: usize = 0;
    while i < names.len()
        invariant
            i <= names.len(),
            vars@.len() == i,
            forall|k: int| 0 <= k < i ==> nul_free(#[trigger] texts(names@)[k]),
        decreases names.len() - i,
    {
        let name = names[i].as_str();
        proof {
            assert(texts(names@)[i as int] == name@);
        }
        if has_nul(name) {
            return None;
        }
        vars.push(fresh_bool(name));
        i += 1;
    }
    Some(vars)
}

/// The term that stands for a variable: the term at the position of the
/// item in the list of item terms, or of the group in the list of group
/// terms. A variable beyond the lists has none.
pub open spec fn term_of(x: Var, items: Seq<Bool>, groups: Seq<Bool>) -> Option<Bool> {
    match x {
        Var::Item(i) => if i < items.len() {
            Some(items[i as int])
        } else {
            None
        },
        Var::Group(g) => if g < groups.len() {
            Some(groups[g as int])
        } else {
            None
        },
    }
}

/// The solver term of a variable: the term that stands for it in the lists,
/// so that the positions of the terms line up with the positions of the
/// model. A variable beyond the lists is the constant `false`, as it counts
/// as false in every valuation.
fn lower_var(x: &Var, items: &Vec<Bool>, groups: &Vec<Bool>) -> (r: Bool)
    ensures
        term_of(*x, items@, groups@) matches Some(t) ==> r == t,
{
    match x {
        Var::Item(i) => {
            if *i < items.len() {
                clone_bool(&items[*i])
            } else {
                constant_bool(false)
            }
        },
        Var::Group(g) => {
            if *g < groups.len() {
                clone_bool(&groups[*g])
            } else {
                constant_bool(false)
            }
        },
    }
}

/// The solver terms of a list of variables, in the order of the list: for
/// each variable within the lists, the term that stands for it.
fn lower_vars(vars: &Vec<Var>, items: &Vec<Bool>, groups: &Vec<Bool>) -> (r: Vec<Bool>)
    ensures
        r@.len() == vars@.len(),
        forall|k: int|
            0 <= k < vars@.len() ==> (term_of(#[trigger] vars@[k], items@, groups@) matches Some(t)
                ==> r@[k] == t),
{
    let mut r: Vec<Bool> = Vec::new();
    let mut i: usize = 0;
    while i < vars.len()
        invariant
            i <= vars.len(),
            r@.len() == i,
            forall|k: int|
                0 <= k < i ==> (term_of(#[trigger] vars@[k], items@, groups@) matches Some(t)
                    ==> r@[k] == t),
        decreases vars.len() - i,
    {
        r.push(lower_var(&vars[i], items, groups));
        i += 1;
    }
    r
}

/// The solver term of a formula; `None` exactly if the formula is not solver
/// sized. The term of a bare variable within the lists is the term that
/// stands for it.
#[verifier::loop_isolation(false)]
fn lower(f: &Formula, items: &Vec<Bool>, groups: &Vec<Bool>) -> (r: Option<Bool>)
    ensures
        r is Some <==> solver_sized(f@),
        f@ matches Prop::Var(x) ==> (term_of(x, items@, groups@) matches Some(t) ==> r == Some(t)),
    decreases f,
{
    match f {
        Formula::Var(x) => Some(lower_var(x, items, groups)),
        Formula::Not(g) => match lower(g, items, groups) {
            Some(b) => Some(bool_not(&b)),
            None => None,
        },
        Formula::And(fs) => {
            if fs.len() > MAX_ARITY {
                return None;
            }
            let mut parts: Vec<Bool> = Vec::new();
            let mut i: usize = 0;
            while i < fs.len()
                invariant
                    i <= fs.len(),
                    parts@.len() == i,
                    forall|k: int| 0 <= k < i ==> solver_sized((#[trigger] fs@[k])@),
                decreases fs.len() - i,
            {
                match lower(&fs[i], items, groups) {
                    Some(b) => {
                        parts.push(b);
                    },
                    None => {
                        proof {
                            assert(f@->And_0[i as int] == fs@[i as int]@);
                        }
                        return None;
                    },
                }
                i += 1;
            }
            proof {
                assert forall|k: int| 0 <= k < f@->And_0.len() implies solver_sized(
                    #[trigger] f@->And_0[k],
                ) by {
                    assert(f@->And_0[k] == fs@[k]@);
                }
            }
            Some(bool_and(&parts))
        },
        Formula::Or(fs) => {
            if fs.len() > MAX_ARITY {
                return None;
            }
            let mut parts: Vec<Bool> = Vec::new();
            let mut i: usize = 0;
            while i < fs.len()
                invariant
                    i <= fs.len(),
                    parts@.len() == i,
                    forall|k: int| 0 <= k < i ==> solver_sized((#[trigger] fs@[k])@),
                decreases fs.len() - i,
            {
                match lower(&fs[i], items, groups) {
                    Some(b) => {
                        parts.push(b);
                    },
                    None => {
                        proof {
                            assert(f@->Or_0[i as int] == fs@[i as int]@);
                        }
                        return None;
                    },
                }
                i += 1;
            }
            proof {
                assert forall|k: int| 0 <= k < f@->Or_0.len() implies solver_sized(
                    #[trigger] f@->Or_0[k],
                ) by {
                    assert(f@->Or_0[k] == fs@[k]@);
                }
            }
            Some(bool_or(&parts))
        },
        Formula::Implies(p, q) => match lower(p, items, groups) {
            Some(a) => match lower(q, items, groups) {
                Some(b) => Some(bool_implies(&a, &b)),
                None => None,
            },
            None => None,
        },
        Formula::AtLeast(vars, k) => {
            if vars.len() > MAX_ARITY || *k > MAX_COUNT {
                None
            } else {
                let args = lower_vars(vars, items, groups);
                Some(at_least(&args, *k))
            }
        },
        Formula::AtMost(vars, k) => {
            if vars.len() > MAX_ARITY || *k > MAX_COUNT {
                None
            } else {
                let args = lower_vars(vars, items, groups);
                Some(at_most(&args, *k))
            }
        },
    }
}

/// Asserts every formula of the list on the solver. Returns whether all of
/// them were solver sized; at the first that is not, it stops.
fn assert_all(
    solver: &z3::Solver,
    cs: &Vec<Formula>,
    items: &Vec<Bool>,
    groups: &Vec<Bool>,
) -> (r: bool)
    ensures
        r == all_solver_sized(props(cs@)),
{
    let mut i: usize = 0;
    while i < cs.len()
        invariant
            i <= cs.len(),
            forall|k: int| 0 <= k < i ==> solver_sized(#[trigger] props(cs@)[k]),
        decreases cs.len() - i,
    {
        proof {
            assert(props(cs@)[i as int] == cs@[i as int]@);
        }
        match lower(&cs[i], items, groups) {
            Some(b) => {
                solver_assert(solver, &b);
            },
            None => {
                return false;
            },
        }
        i += 1;
    }
    true
}

/// The values of a list of solver terms: for each the constant it is, or
/// `None` where it is no constant.
fn read_values(terms: &Vec<Bool>) -> (r: Vec<Option<bool>>)
    ensures
        r@.len() == terms@.len(),
{
    let mut r: Vec<Option<bool>> = Vec::new();
    let mut i: usize = 0;
    while i < terms.len()
        invariant
            i <= terms.len(),
            r@.len() == i,
        decreases terms.len() - i,
    {
        r.push(bool_value(&terms[i]));
        i += 1;
    }
    r
}

/// An answer of the solver as it is read: a value, or none, per variable.
#[derive(Clone, PartialEq, Eq, Debug)]
pub struct Answer {
    /// What the solver says of each item.
    pub items: Vec<Option<bool>>,
    /// What the solver says of each group.
    pub groups: Vec<Option<bool>>,
}

/// Every variable has a value.
pub open spec fn complete(values: Seq<Option<bool>>) -> bool {
    forall|i: int| 0 <= i < values.len() ==> (#[trigger] values[i]) is Some
}

/// The values, where every variable has one.
pub open spec fn values_of(values: Seq<Option<bool>>) -> Seq<bool> {
    Seq::new(values.len(), |i: int| values[i]->Some_0)
}

impl Answer {
    /// The valuation that the answer gives, where it is complete.
    pub open spec fn valuation(&self) -> Valuation {
        Valuation { items: values_of(self.items@), groups: values_of(self.groups@) }
    }

    /// The answer has a value for every variable.
    pub open spec fn is_complete(&self) -> bool {
        complete(self.items@) && complete(self.groups@)
    }
}

/// Answer `k` is accepted: it is complete, covers `n_items` items and
/// `n_groups` groups, satisfies every formula, and differs from every answer
/// before it.
pub open spec fn accepted(
    cs: Seq<Prop>,
    n_items: nat,
    n_groups: nat,
    answers: Seq<Answer>,
    k: int,
) -> bool {
    &&& answers[k].is_complete()
    &&& answers[k].items@.len() == n_items
    &&& answers[k].groups@.len() == n_groups
    &&& satisfies_all(cs, answers[k].valuation())
    &&& forall|j: int| 0 <= j < k ==> (#[trigger] answers[j]).valuation() != answers[k].valuation()
}

/// The values of a complete list; `None` if a variable has no value.
pub fn values(raw: &Vec<Option<bool>>) -> (r: Option<Vec<bool>>)
    ensures
        r is Some <==> complete(raw@),
        r matches Some(v) ==> v@ == values_of(raw@),
{
    let mut out: Vec<bool> = Vec::new();
    let mut i: usize = 0;
    while i < raw.len()
        invariant
            i <= raw.len(),
            out@.len() == i,
            forall|k: int| 0 <= k < i ==> (#[trigger] raw@[k]) is Some && out@[k] == raw@[k]->Some_0,
        decreases raw.len() - i,
    {
        match raw[i] {
            Some(b) => {
                out.push(b);
            },
            None => {
                return None;
            },
        }
        i += 1;
    }
    proof {
        assert(out@ =~= values_of(raw@));
    }
    Some(out)
}

/// Whether two lists of truth values are the same.
pub fn same_values(a: &Vec<bool>, b: &Vec<bool>) -> (r: bool)
    ensures
        r == (a@ == b@),
{
    if a.len() != b.len() {
        return false;
    }
    let mut i: usize = 0;
    while i < a.len()
        invariant
            i <= a.len(),
            a@.len() == b@.len(),
            forall|k: int| 0 <= k < i ==> a@[k] == b@[k],
        decreases a.len() - i,
    {
        if a[i] != b[i] {
            return false;
        }
        i += 1;
    }
    proof {
        assert(a@ =~= b@);
    }
    true
}

/// Whether two assignments are the same.
pub fn same_assignment(a: &Assignment, b: &Assignment) -> (r: bool)
    ensures
        r == (a@ == b@),
{
    same_values(&a.items, &b.items) && same_values(&a.groups, &b.groups)
}

/// Checks the answers of a solver. If every answer is accepted, the answers
/// are returned as assignments, in order; otherwise nothing is returned.
pub fn accept(cs: &Vec<Formula>, n_items: usize, n_groups: usize, answers: &Vec<Answer>) -> (r:
    Result<Vec<Assignment>, SolveError>)
    ensures
        r is Ok <==> forall|k: int|
            0 <= k < answers@.len() ==> accepted(props(cs@), n_items as nat, n_groups as nat, answers@, k),
        r matches Ok(sols) ==> sols@.len() == answers@.len() && forall|k: int|
            0 <= k < sols@.len() ==> (#[trigger] sols@[k])@ == answers@[k].valuation(),
        r matches Err(e) ==> e == SolveError::Oracle,
{
    let mut sols: Vec<Assignment> = Vec::new();
    let mut k: usize = 0;
    while k < answers.len()
        invariant
            k <= answers.len(),
            sols@.len() == k,
            forall|j: int|
                0 <= j < k ==> accepted(props(cs@), n_items as nat, n_groups as nat, answers@, j),
            forall|j: int| 0 <= j < k ==> (#[trigger] sols@[j])@ == answers@[j].valuation(),
        decreases answers.len() - k,
    {
        let answer = &answers[k];
        let items = match values(&answer.items) {
            Some(v) => v,
            None => {
                proof {
                    assert(!accepted(props(cs@), n_items as nat, n_groups as nat, answers@, k as int));
                }
                return Err(SolveError::Oracle);
            },
        };
        let groups = match values(&answer.groups) {
            Some(v) => v,
            None => {
                proof {
                    assert(!accepted(props(cs@), n_items as nat, n_groups as nat, answers@, k as int));
                }
                return Err(SolveError::Oracle);
            },
        };
        let a = Assignment { items, groups };
        proof {
            assert(a@ == answer.valuation());
        }
        if a.items.len() != n_items || a.groups.len() != n_groups || !satisfies_all_in(cs, &a) {
            proof {
                assert(!accepted(props(cs@), n_items as nat, n_groups as nat, answers@, k as int));
            }
            return Err(SolveError::Oracle);
        }
        let mut j: usize = 0;
        while j < k
            invariant
                j <= k,
                k < answers.len(),
                sols@.len() == k,
                a@ == answers@[k as int].valuation(),
                forall|i: int| 0 <= i < k ==> (#[trigger] sols@[i])@ == answers@[i].valuation(),
                forall|i: int| 0 <= i < j ==> (#[trigger] answers@[i]).valuation() != a@,
            decreases k - j,
        {
            if same_assignment(&sols[j], &a) {
                proof {
                    assert(answers@[j as int].valuation() == answers@[k as int].valuation());
                    assert(!accepted(props(cs@), n_items as nat, n_groups as nat, answers@, k as int));
                }
                return Err(SolveError::Oracle);
            }
            j += 1;
        }
        sols.push(a);
        k += 1;
    }
    Ok(sols)
}

/// Reads the answers of the solver into values.
fn read_answers(raw: &Vec<(Vec<Bool>, Vec<Bool>)>) -> (r: Vec<Answer>)
    ensures
        r@.len() == raw@.len(),
{
    let mut out: Vec<Answer> = Vec::new();
    let mut i: usize = 0;
    while i < raw.len()
        invariant
            i <= raw.len(),
            out@.len() == i,
        decreases raw.len() - i,
    {
        let items = read_values(&raw[i].0);
        let groups = read_values(&raw[i].1);
        out.push(Answer { items, groups });
        i += 1;
    }
    out
}

/// Up to `limit` distinct assignments that satisfy every formula of the
/// list, as the solver finds them. There is one variable per item name and
/// one per group name; the names only label the variables of the solver.
///
/// Whatever is returned is a list of assignments that satisfy the formulas,
/// no two of them the same. An empty list says that the solver found none.
/// The solver is asked for no more than `limit` answers. That it finds an
/// assignment where there is one is not part of the contract.
pub fn enumerate(
    cs: &Vec<Formula>,
    item_names: &Vec<String>,
    group_names: &Vec<String>,
    limit: usize,
) -> (r: Result<Vec<Assignment>, SolveError>)
    ensures
        r == Err::<Vec<Assignment>, SolveError>(SolveError::BadName) <==> !(all_nul_free(
            texts(item_names@),
        ) && all_nul_free(texts(group_names@))),
        r == Err::<Vec<Assignment>, SolveError>(SolveError::TooLarge) <==> all_nul_free(
            texts(item_names@),
        ) && all_nul_free(texts(group_names@)) && !solver_takes(
            props(cs@),
            item_names@.len(),
            group_names@.len(),
        ),
        limit == 0 && all_nul_free(texts(item_names@)) && all_nul_free(texts(group_names@))
            && solver_takes(props(cs@), item_names@.len(), group_names@.len()) ==> r is Ok,
        r matches Ok(sols) ==> {
            &&& sols@.len() <= limit
            &&& forall|k: int|
                0 <= k < sols@.len() ==> (#[trigger] sols@[k])@.items.len() == item_names@.len()
                    && sols@[k]@.groups.len() == group_names@.len() && satisfies_all(
                    props(cs@),
                    sols@[k]@,
                )
            &&& forall|j: int, k: int|
                0 <= j < k < sols@.len() ==> (#[trigger] sols@[j])@ != (#[trigger] sols@[k])@
        },
{
    let items = match fresh_vars(item_names) {
        Some(v) => v,
        None => {
            return Err(SolveError::BadName);
        },
    };
    let groups = match fresh_vars(group_names) {
        Some(v) => v,
        None => {
            return Err(SolveError::BadName);
        },
    };
    if items.len() > MAX_ARITY || groups.len() > MAX_ARITY {
        return Err(SolveError::TooLarge);
    }
    let solver = new_solver();
    if !assert_all(&solver, cs, &items, &groups) {
        return Err(SolveError::TooLarge);
    }
    let raw = first_solutions(&solver, &items, &groups, limit);
    let answers = read_answers(&raw);
    match accept(cs, item_names.len(), group_names.len(), &answers) {
        Ok(sols) => {
            proof {
                let n = item_names@.len() as nat;
                let g = group_names@.len() as nat;
                assert forall|k: int| 0 <= k < sols@.len() implies (#[trigger] sols@[k])@.items.len()
                    == n && sols@[k]@.groups.len() == g && satisfies_all(props(cs@), sols@[k]@) by {
                    assert(accepted(props(cs@), n, g, answers@, k));
                }
                assert forall|j: int, k: int| 0 <= j < k < sols@.len() implies (#[trigger] sols@[j])@
                    != (#[trigger] sols@[k])@ by {
                    assert(accepted(props(cs@), n, g, answers@, k));
                }
            }
            Ok(sols)
        },
        Err(e) => Err(e),
    }
}

/// Up to `limit` distinct valid selections of the model, as the solver finds them.
///
/// Whatever is returned is a list of valid selections, no two of them the
/// same. An empty list says that the solver found none. Of a model that is
/// a partition into full groups, at most one selection is returned, and it
/// selects every item and makes every group active.
pub fn solve(data: &Data, limit: usize) -> (r: Result<Vec<Assignment>, SolveError>)
    requires
        data.well_formed(),
    ensures
        r == Err::<Vec<Assignment>, SolveError>(SolveError::BadName) <==> !names_ok(data@),
        r == Err::<Vec<Assignment>, SolveError>(SolveError::TooLarge) <==> names_ok(data@)
            && !solver_takes(constraints(data@), data@.names.len(), data@.groups.len()),
        limit == 0 && names_ok(data@) && solver_takes(
            constraints(data@),
            data@.names.len(),
            data@.groups.len(),
        ) ==> r is Ok,
        r matches Ok(sols) ==> {
            &&& sols@.len() <= limit
            &&& forall|k: int|
                0 <= k < sols@.len() ==> (#[trigger] sols@[k])@.fits(data@) && valid_selection(
                    data@,
                    sols@[k]@,
                ) && satisfies_all(constraints(data@), sols@[k]@)
            &&& forall|j: int, k: int|
                0 <= j < k < sols@.len() ==> (#[trigger] sols@[j])@ != (#[trigger] sols@[k])@
            &&& partitioned(data@) ==> sols@.len() <= 1 && forall|k: int|
                0 <= k < sols@.len() ==> (#[trigger] sols@[k])@ == everything(data@)
        },
{
    let group_list = names_of_groups(&data.props);
    let cs = encode(data);
    let r = enumerate(&cs, &data.names, &group_list, limit);
    proof {
        let m = data@;
        if r is Ok {
            let sols = r->Ok_0;
            assert forall|k: int| 0 <= k < sols@.len() implies (#[trigger] sols@[k])@.fits(m)
                && valid_selection(m, sols@[k]@) && satisfies_all(constraints(m), sols@[k]@) by {
                assert(texts(group_list@).len() == m.groups.len());
                lemma_constraints_meaning(m, sols@[k]@);
            }
            if partitioned(m) {
                assert forall|k: int| 0 <= k < sols@.len() implies (#[trigger] sols@[k])@
                    == everything(m) by {
                    lemma_partition_has_one_selection(m, sols@[k]@);
                }
                if sols@.len() >= 2 {
                    assert(sols@[0]@ == sols@[1]@);
                }
            }
        }
    }
    r
}

} // verus!
