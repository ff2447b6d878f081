//! The satisfiability solver, as far as this crate uses it.
//!
//! Nothing in this file is proved. Each function makes one call into the
//! solver crate; what its contract claims of that call is said above it. A
//! solver term is opaque here: no contract speaks of what a term means, and
//! none claims that an answer of the solver satisfies what was asserted. The
//! callers check every answer themselves.

use vstd::prelude::*;
use z3::ast::Bool;
use z3::Solver;

verus! {

/// The solver's boolean terms, `z3::ast::Bool`. Opaque.
#[verifier::external_type_specification]
#[verifier::external_body]
pub struct ExBool(Bool);

/// The solver itself, `z3::Solver`. Opaque.
#[verifier::external_type_specification]
#[verifier::external_body]
pub struct ExSolver(Solver);

/// The longest argument list that the solver's term builders take.
pub const MAX_ARITY: usize = 0xffff_ffff;

/// The largest count that the solver's counting terms take.
pub const MAX_COUNT: u32 = 0x7fff_ffff;

/// No character of the text is the NUL character.
pub open spec fn nul_free(s: Seq<char>) -> bool {
    forall|i: int| 0 <= i < s.len() ==> s[i] != '\0'
}

/// `Bool::fresh_const`: a new boolean variable whose name starts with
/// `prefix`. The call turns the prefix into a C string and panics if it
/// holds a NUL character, so the contract leaves such a prefix out.
#[verifier::external_body]
pub(crate) fn fresh_bool(prefix: &str) -> (b: Bool)
    requires
        nul_free(prefix@),
{
    Bool::fresh_const(prefix)
}

/// `Bool::from_bool`: the constant term `true` or `false`.
#[verifier::external_body]
pub(crate) fn constant_bool(value: bool) -> (b: Bool) {
    Bool::from_bool(value)
}

/// `Clone::clone` of a term. The clone is made from the context and the
/// term pointer of the original, so it is the same term: the contract says
/// that it equals the original.
#[verifier::external_body]
pub(crate) fn clone_bool(b: &Bool) -> (c: Bool)
    ensures
        c == *b,
{
    b.clone()
}

/// `Bool::not`: the negation of a term.
#[verifier::external_body]
pub(crate) fn bool_not(b: &Bool) -> (r: Bool) {
    b.not()
}

/// `Bool::implies`: the implication from `a` to `b`.
#[verifier::external_body]
pub(crate) fn bool_implies(a: &Bool, b: &Bool) -> (r: Bool) {
    a.implies(b)
}

/// `Bool::and`: the conjunction of the terms. The call asserts that there
/// are at most `MAX_ARITY` of them, so the contract asks for that.
#[verifier::external_body]
pub(crate) fn bool_and(parts: &Vec<Bool>) -> (r: Bool)
    requires
        parts@.len() <= MAX_ARITY,
{
    Bool::and(parts.as_slice())
}

/// `Bool::or`: the disjunction of the terms. The call asserts that there
/// are at most `MAX_ARITY` of them, so the contract asks for that.
#[verifier::external_body]
pub(crate) fn bool_or(parts: &Vec<Bool>) -> (r: Bool)
    requires
        parts@.len() <= MAX_ARITY,
{
    Bool::or(parts.as_slice())
}

/// `z3::ast::atleast`: the term "at least `k` of the arguments are true".
/// The call converts the number of arguments to 32 bits and panics if it
/// does not fit, so the contract asks for at most `MAX_ARITY` of them. It
/// also unwraps what the solver hands back, and the solver hands back
/// nothing for a count above `MAX_COUNT`, so the contract leaves such a
/// count out.
#[verifier::external_body]
pub(crate) fn at_least(args: &Vec<Bool>, k: u32) -> (r: Bool)
    requires
        args@.len() <= MAX_ARITY,
        k <= MAX_COUNT,
{
    z3::ast::atleast(args, k)
}

/// `z3::ast::atmost`: the term "at most `k` of the arguments are true".
/// The call converts the number of arguments to 32 bits and panics if it
/// does not fit, so the contract asks for at most `MAX_ARITY` of them. It
/// also unwraps what the solver hands back, and the solver hands back
/// nothing for a count above `MAX_COUNT`, so the contract leaves such a
/// count out.
#[verifier::external_body]
pub(crate) fn at_most(args: &Vec<Bool>, k: u32) -> (r: Bool)
    requires
        args@.len() <= MAX_ARITY,
        k <= MAX_COUNT,
{
    z3::ast::atmost(args, k)
}

/// `Solver::new`: a solver with nothing asserted.
#[verifier::external_body]
pub(crate) fn new_solver() -> (s: Solver) {
    Solver::new()
}

/// `Solver::assert`: adds the term to what the solver has to satisfy.
#[verifier::external_body]
pub(crate) fn solver_assert(solver: &Solver, b: &Bool) {
    solver.assert(b)
}

/// `Solver::solutions` over the pair of the two variable lists, without
/// model completion, cut off after `limit` answers. Each answer is read from
/// a model of the solver variable by variable, so it has one term per
/// variable, in the order of the lists; there are at most `limit` answers.
/// That is all the contract claims. After each answer the call rules that
/// answer out with one disjunction over the items and one over the groups,
/// built by `Bool::or`, which asserts that it gets at most `MAX_ARITY`
/// terms; so the contract asks for lists no longer than that.
#[verifier::external_body]
pub(crate) fn first_solutions(
    solver: &Solver,
    items: &Vec<Bool>,
    groups: &Vec<Bool>,
    limit: usize,
) -> (r: Vec<(Vec<Bool>, Vec<Bool>)>)
    requires
        items@.len() <= MAX_ARITY,
        groups@.len() <= MAX_ARITY,
    ensures
        r@.len() <= limit,
        forall|k: int|
            0 <= k < r@.len() ==> (#[trigger] r@[k]).0@.len() == items@.len() && r@[k].1@.len()
                == groups@.len(),
{
    solver.solutions((items, groups), false).take(limit).collect()
}

/// `Bool::as_bool`: the value of a term that is the constant `true` or
/// `false`, and `None` for any other term.
#[verifier::external_body]
pub(crate) fn bool_value(b: &Bool) -> (r: Option<bool>) {
    b.as_bool()
}

} // verus!
