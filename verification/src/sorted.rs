//! Ascending index lists and their intersection.
//!
//! Item and group indices are kept in ascending lists throughout the crate.
//! The intersection of two such lists is computed by one linear merge; its
//! result is characterised here as the ascending list whose multiset of
//! elements is the multiset intersection of the two inputs.

use vstd::multiset::*;
use vstd::prelude::*;
use vstd::relations::*;
use vstd::seq_lib::*;

verus! {

broadcast use {group_multiset_axioms, lemma_intersection_count};

/// Ascending, repeats allowed.
pub open spec fn sorted(s: Seq<usize>) -> bool {
    forall|i: int, j: int| 0 <= i <= j < s.len() ==> s[i] <= s[j]
}

/// Ascending without repeats: every element is smaller than each one after it.
pub open spec fn strictly_sorted(s: Seq<usize>) -> bool {
    forall|i: int, j: int| 0 <= i < j < s.len() ==> s[i] < s[j]
}

/// Every element of `s` is below `bound`.
pub open spec fn all_below(s: Seq<usize>, bound: int) -> bool {
    forall|i: int| 0 <= i < s.len() ==> s[i] < bound
}

/// `r` is the intersection of the ascending lists `a` and `b`: it is ascending
/// and holds each value as often as the input that holds it less often.
pub open spec fn is_intersection(a: Seq<usize>, b: Seq<usize>, r: Seq<usize>) -> bool {
    &&& sorted(r)
    &&& r.to_multiset() =~= a.to_multiset().intersection_with(b.to_multiset())
}

/// The intersection of the ascending lists `a` and `b`.
pub open spec fn intersect(a: Seq<usize>, b: Seq<usize>) -> Seq<usize> {
    choose|r: Seq<usize>| is_intersection(a, b, r)
}

/// The order on indices as a relation, for the library lemmas on sorted sequences.
pub open spec fn index_leq() -> spec_fn(usize, usize) -> bool {
    |x: usize, y: usize| x <= y
}

/// Whether `v` is ascending (repeats allowed).
pub fn is_sorted(v: &[usize]) -> (r: bool)
    ensures
        r == sorted(v@),
{
    if v.len() < 2 {
        return true;
    }
    let mut i: usize = 1;
    while i < v.len()
        invariant
            1 <= i <= v.len(),
            forall|a: int, b: int| 0 <= a <= b < i ==> v@[a] <= v@[b],
        decreases v.len() - i,
    {
        if v[i - 1] > v[i] {
            return false;
        }
        i += 1;
    }
    true
}

/// Whether `v` is ascending without repeats.
pub fn is_strictly_sorted(v: &[usize]) -> (r: bool)
    ensures
        r == strictly_sorted(v@),
{
    if v.len() < 2 {
        return true;
    }
    let mut i: usize = 1;
    while i < v.len()
        invariant
            1 <= i <= v.len(),
            forall|a: int, b: int| 0 <= a < b < i ==> v@[a] < v@[b],
        decreases v.len() - i,
    {
        if v[i - 1] >= v[i] {
            return false;
        }
        i += 1;
    }
    true
}

/// Whether every element of `v` is below `bound`.
pub fn is_all_below(v: &[usize], bound: usize) -> (r: bool)
    ensures
        r == all_below(v@, bound as int),
{
    let mut i: usize = 0;
    while i < v.len()
        invariant
            i <= v.len(),
            forall|k: int| 0 <= k < i ==> v@[k] < bound,
        decreases v.len() - i,
    {
        if v[i] >= bound {
            return false;
        }
        i += 1;
    }
    true
}

/// Dropping the first `i` elements and then one more removes exactly `s[i]`
/// from the multiset of what is left.
proof fn lemma_skip_step(s: Seq<usize>, i: int)
    requires
        0 <= i < s.len(),
    ensures
        s.skip(i).to_multiset() =~= s.skip(i + 1).to_multiset().insert(s[i]),
{
    let t = s.skip(i);
    assert(t.remove(0) =~= s.skip(i + 1));
    to_multiset_remove(t, 0);
    to_multiset_contains(t, t[0]);
    assert(t.contains(t[0]));
}

/// The empty list has the empty multiset.
proof fn lemma_empty_to_multiset(s: Seq<usize>)
    requires
        s.len() == 0,
    ensures
        s.to_multiset() =~= Multiset::<usize>::empty(),
{
    to_multiset_len(s);
    lemma_multiset_empty_len(s.to_multiset());
}

/// A value below every element of a list does not occur in it.
proof fn lemma_absent_below(s: Seq<usize>, from: int, x: usize)
    requires
        0 <= from <= s.len(),
        forall|m: int| from <= m < s.len() ==> x < s[m],
    ensures
        s.skip(from).to_multiset().count(x) == 0,
{
    let t = s.skip(from);
    to_multiset_contains(t, x);
    if t.contains(x) {
        let k = choose|k: int| 0 <= k < t.len() && t[k] == x;
        assert(t[k] == s[from + k]);
    }
}

/// The ascending intersection of two ascending index lists, by one linear merge.
pub fn intersection(v1: &[usize], v2: &[usize]) -> (out: Vec<usize>)
    requires
        sorted(v1@),
        sorted(v2@),
    ensures
        is_intersection(v1@, v2@, out@),
        out@ == intersect(v1@, v2@),
        strictly_sorted(v1@) || strictly_sorted(v2@) ==> strictly_sorted(out@),
        forall|k: int| 0 <= k < out@.len() ==> v1@.contains(out@[k]) && v2@.contains(out@[k]),
{
    let mut out: Vec<usize> = Vec::new();
    let mut i: usize = 0;
    let mut j: usize = 0;
    let ghost a = v1@;
    let ghost b = v2@;
    let ghost whole = a.to_multiset().intersection_with(b.to_multiset());
    proof {
        assert(a.skip(0) =~= a);
        assert(b.skip(0) =~= b);
        lemma_empty_to_multiset(out@);
        assert forall|x: usize|
            out@.to_multiset().add(
                a.skip(0).to_multiset().intersection_with(b.skip(0).to_multiset()),
            ).count(x) == whole.count(x) by {}
    }
    while i < v1.len() && j < v2.len()
        invariant
            a == v1@,
            b == v2@,
            whole == a.to_multiset().intersection_with(b.to_multiset()),
            sorted(a),
            sorted(b),
            i <= a.len(),
            j <= b.len(),
            sorted(out@),
            forall|k: int, m: int| 0 <= k < out@.len() && i <= m < a.len() ==> out@[k] <= a[m],
            forall|k: int, m: int| 0 <= k < out@.len() && j <= m < b.len() ==> out@[k] <= b[m],
            strictly_sorted(a) || strictly_sorted(b) ==> strictly_sorted(out@) && (forall|
                k: int,
                m: int,
                n: int,
            |
                0 <= k < out@.len() && i <= m < a.len() && j <= n < b.len() ==> out@[k] < a[m]
                    || out@[k] < b[n]),
            forall|k: int| 0 <= k < out@.len() ==> a.contains(out@[k]) && b.contains(out@[k]),
            out@.to_multiset().add(
                a.skip(i as int).to_multiset().intersection_with(b.skip(j as int).to_multiset()),
            ) =~= whole,
        decreases a.len() - i + b.len() - j,
    {
        let x = v1[i];
        let y = v2[j];
        let ghost ra = a.skip(i as int).to_multiset();
        let ghost rb = b.skip(j as int).to_multiset();
        let ghost ra1 = a.skip(i + 1).to_multiset();
        let ghost rb1 = b.skip(j + 1).to_multiset();
        proof {
            lemma_skip_step(a, i as int);
            lemma_skip_step(b, j as int);
        }
        if x < y {
            proof {
                assert forall|m: int| j <= m < b.len() implies x < b[m] by {
                    assert(b[j as int] <= b[m]);
                }
                lemma_absent_below(b, j as int, x);
                assert(ra1.intersection_with(rb) =~= ra.intersection_with(rb));
            }
            i += 1;
        } else if x == y {
            proof {
                to_multiset_build(out@, x);
                assert(ra.intersection_with(rb) =~= ra1.intersection_with(rb1).insert(x));
                assert(out@.push(x).to_multiset().add(ra1.intersection_with(rb1)) =~= whole);
            }
            out.push(x);
            i += 1;
            j += 1;
        } else {
            proof {
                assert forall|m: int| i <= m < a.len() implies y < a[m] by {
                    assert(a[i as int] <= a[m]);
                }
                lemma_absent_below(a, i as int, y);
                assert(ra.intersection_with(rb1) =~= ra.intersection_with(rb));
            }
            j += 1;
        }
    }
    proof {
        if i == a.len() {
            lemma_empty_to_multiset(a.skip(i as int));
        } else {
            lemma_empty_to_multiset(b.skip(j as int));
        }
        assert(a.skip(i as int).to_multiset().intersection_with(b.skip(j as int).to_multiset())
            =~= Multiset::<usize>::empty());
        assert(out@.to_multiset() =~= whole);
        lemma_intersect(a, b, out@);
    }
    out
}

/// Whether the ascending list `v` holds `x`, by binary search.
pub fn contains_index(v: &[usize], x: usize) -> (r: bool)
    requires
        sorted(v@),
    ensures
        r == v@.contains(x),
{
    let mut lo: usize = 0;
    let mut hi: usize = v.len();
    while lo < hi
        invariant
            lo <= hi <= v.len(),
            sorted(v@),
            forall|k: int| 0 <= k < lo ==> v@[k] < x,
            forall|k: int| hi <= k < v.len() ==> x < v@[k],
        decreases hi - lo,
    {
        let mid = lo + (hi - lo) / 2;
        let y = v[mid];
        if y == x {
            return true;
        } else if y < x {
            lo = mid + 1;
        } else {
            hi = mid;
        }
    }
    false
}

/// The intersection of two ascending lists is unique.
pub proof fn lemma_intersection_unique(a: Seq<usize>, b: Seq<usize>, r1: Seq<usize>, r2: Seq<usize>)
    requires
        is_intersection(a, b, r1),
        is_intersection(a, b, r2),
    ensures
        r1 == r2,
{
    lemma_sorted_by_index_leq(r1);
    lemma_sorted_by_index_leq(r2);
    lemma_sorted_unique(r1, r2, index_leq());
}

/// A list that is the intersection of `a` and `b` is `intersect(a, b)`.
pub proof fn lemma_intersect(a: Seq<usize>, b: Seq<usize>, r: Seq<usize>)
    requires
        is_intersection(a, b, r),
    ensures
        r == intersect(a, b),
        is_intersection(a, b, intersect(a, b)),
{
    lemma_intersection_unique(a, b, r, intersect(a, b));
}

/// Every two ascending lists have an intersection.
pub proof fn lemma_intersection_exists(a: Seq<usize>, b: Seq<usize>) -> (r: Seq<usize>)
    requires
        sorted(a),
        sorted(b),
    ensures
        is_intersection(a, b, r),
        r == intersect(a, b),
    decreases a.len() + b.len(),
{
    let r = if a.len() == 0 || b.len() == 0 {
        let e = Seq::<usize>::empty();
        lemma_empty_to_multiset(e);
        if a.len() == 0 {
            lemma_empty_to_multiset(a);
        } else {
            lemma_empty_to_multiset(b);
        }
        assert(e.to_multiset() =~= a.to_multiset().intersection_with(b.to_multiset()));
        e
    } else {
        let a1 = a.skip(1);
        let b1 = b.skip(1);
        assert(a.skip(0) =~= a);
        assert(b.skip(0) =~= b);
        lemma_skip_step(a, 0);
        lemma_skip_step(b, 0);
        assert(sorted(a1)) by {
            assert forall|i: int, j: int| 0 <= i <= j < a1.len() implies a1[i] <= a1[j] by {
                assert(a1[i] == a[i + 1] && a1[j] == a[j + 1]);
            }
        }
        assert(sorted(b1)) by {
            assert forall|i: int, j: int| 0 <= i <= j < b1.len() implies b1[i] <= b1[j] by {
                assert(b1[i] == b[i + 1] && b1[j] == b[j + 1]);
            }
        }
        if a[0] < b[0] {
            let r = lemma_intersection_exists(a1, b);
            assert forall|m: int| 0 <= m < b.len() implies a[0] < b[m] by {
                assert(b[0] <= b[m]);
            }
            lemma_absent_below(b, 0, a[0]);
            assert(r.to_multiset() =~= a.to_multiset().intersection_with(b.to_multiset()));
            r
        } else if b[0] < a[0] {
            let r = lemma_intersection_exists(a, b1);
            assert forall|m: int| 0 <= m < a.len() implies b[0] < a[m] by {
                assert(a[0] <= a[m]);
            }
            lemma_absent_below(a, 0, b[0]);
            assert(r.to_multiset() =~= a.to_multiset().intersection_with(b.to_multiset()));
            r
        } else {
            let r1 = lemma_intersection_exists(a1, b1);
            let x = a[0];
            let r = seq![x] + r1;
            assert(r =~= r1.insert(0, x));
            to_multiset_insert(r1, 0, x);
            assert(r.to_multiset() =~= a.to_multiset().intersection_with(b.to_multiset()));
            assert forall|i: int, j: int| 0 <= i <= j < r.len() implies r[i] <= r[j] by {
                if i == 0 && j > 0 {
                    let y = r1[j - 1];
                    assert(r1.contains(y));
                    to_multiset_contains(r1, y);
                    to_multiset_contains(a1, y);
                    let k = choose|k: int| 0 <= k < a1.len() && a1[k] == y;
                    assert(a1[k] == a[k + 1]);
                } else if i > 0 {
                    assert(r1[i - 1] <= r1[j - 1]);
                }
            }
            r
        }
    };
    lemma_intersect(a, b, r);
    r
}

/// The intersection of two lists without repeats is a list without repeats
/// that holds exactly the values that both hold.
pub proof fn lemma_intersect_members(a: Seq<usize>, b: Seq<usize>)
    requires
        strictly_sorted(a),
        strictly_sorted(b),
    ensures
        strictly_sorted(intersect(a, b)),
        forall|x: usize| intersect(a, b).contains(x) <==> a.contains(x) && b.contains(x),
{
    lemma_strict_is_sorted(a);
    lemma_strict_is_sorted(b);
    let r = lemma_intersection_exists(a, b);
    lemma_intersection_is_set_intersection(a, b, r);
}

/// A list without repeats is ascending.
pub proof fn lemma_strict_is_sorted(a: Seq<usize>)
    requires
        strictly_sorted(a),
    ensures
        sorted(a),
{
    assert forall|i: int, j: int| 0 <= i <= j < a.len() implies a[i] <= a[j] by {
        if i < j {
            assert(a[i] < a[j]);
        }
    }
}

/// `sorted` is sortedness by the order on indices, which is total.
proof fn lemma_sorted_by_index_leq(s: Seq<usize>)
    requires
        sorted(s),
    ensures
        sorted_by(s, index_leq()),
        total_ordering(index_leq()),
{
}

/// For lists without repeats, the intersection holds exactly the values that
/// both lists hold, in ascending order without repeats: it is the set
/// intersection, listed in order.
pub proof fn lemma_intersection_is_set_intersection(a: Seq<usize>, b: Seq<usize>, r: Seq<usize>)
    requires
        sorted(a),
        sorted(b),
        is_intersection(a, b, r),
    ensures
        r.to_set() == a.to_set().intersect(b.to_set()),
        forall|x: usize| r.contains(x) <==> a.contains(x) && b.contains(x),
        strictly_sorted(a) || strictly_sorted(b) ==> strictly_sorted(r),
{
    assert forall|x: usize| r.contains(x) <==> a.contains(x) && b.contains(x) by {
        to_multiset_contains(r, x);
        to_multiset_contains(a, x);
        to_multiset_contains(b, x);
    }
    assert(r.to_set() =~= a.to_set().intersect(b.to_set()));
    if strictly_sorted(a) || strictly_sorted(b) {
        assert forall|i: int, j: int| 0 <= i < j < r.len() implies r[i] < r[j] by {
            if r[i] == r[j] {
                let x = r[i];
                lemma_count_at_least_two(r, i, j);
                if strictly_sorted(a) {
                    lemma_count_at_most_one(a, x);
                } else {
                    lemma_count_at_most_one(b, x);
                }
            }
        }
    }
}

/// A value that stands at two places of a list occurs in it at least twice.
proof fn lemma_count_at_least_two(s: Seq<usize>, i: int, j: int)
    requires
        0 <= i < j < s.len(),
        s[i] == s[j],
    ensures
        s.to_multiset().count(s[i]) >= 2,
{
    let x = s[i];
    let t = s.remove(j);
    to_multiset_remove(s, j);
    assert(t[i] == x);
    assert(t.contains(x));
    to_multiset_contains(t, x);
    to_multiset_contains(s, x);
    assert(s.contains(x));
}

/// In a list without repeats no value occurs twice.
proof fn lemma_count_at_most_one(s: Seq<usize>, x: usize)
    requires
        strictly_sorted(s),
    ensures
        s.to_multiset().count(x) <= 1,
    decreases s.len(),
{
    if s.len() == 0 {
        to_multiset_contains(s, x);
    } else {
        let t = s.remove(0);
        to_multiset_remove(s, 0);
        assert(strictly_sorted(t)) by {
            assert forall|i: int, j: int| 0 <= i < j < t.len() implies t[i] < t[j] by {
                assert(t[i] == s[i + 1] && t[j] == s[j + 1]);
            }
        }
        lemma_count_at_most_one(t, x);
        if s[0] == x {
            to_multiset_contains(t, x);
            if t.contains(x) {
                let k = choose|k: int| 0 <= k < t.len() && t[k] == x;
                assert(t[k] == s[k + 1]);
            }
        }
    }
}

/// Two lists without repeats that hold the same values are the same list.
pub proof fn lemma_strictly_sorted_unique(a: Seq<usize>, b: Seq<usize>)
    requires
        strictly_sorted(a),
        strictly_sorted(b),
        forall|x: usize| a.contains(x) <==> b.contains(x),
    ensures
        a == b,
{
    assert(a.to_multiset() =~= b.to_multiset()) by {
        assert forall|x: usize| a.to_multiset().count(x) == b.to_multiset().count(x) by {
            lemma_count_at_most_one(a, x);
            lemma_count_at_most_one(b, x);
            to_multiset_contains(a, x);
            to_multiset_contains(b, x);
        }
    }
    assert(sorted(a) && sorted(b)) by {
        assert forall|i: int, j: int| 0 <= i <= j < a.len() implies a[i] <= a[j] by {
            if i < j {
                assert(a[i] < a[j]);
            }
        }
        assert forall|i: int, j: int| 0 <= i <= j < b.len() implies b[i] <= b[j] by {
            if i < j {
                assert(b[i] < b[j]);
            }
        }
    }
    lemma_sorted_by_index_leq(a);
    lemma_sorted_by_index_leq(b);
    lemma_sorted_unique(a, b, index_leq());
}

/// Intersection does not depend on the order of its two arguments.
pub proof fn lemma_intersection_commutes(
    a: Seq<usize>,
    b: Seq<usize>,
    r1: Seq<usize>,
    r2: Seq<usize>,
)
    requires
        is_intersection(a, b, r1),
        is_intersection(b, a, r2),
    ensures
        r1 == r2,
{
    assert(a.to_multiset().intersection_with(b.to_multiset()) =~= b.to_multiset().intersection_with(
        a.to_multiset(),
    ));
    lemma_intersection_unique(a, b, r1, r2);
}

/// The intersection of an ascending list with itself is that list.
pub proof fn lemma_intersection_self(a: Seq<usize>, r: Seq<usize>)
    requires
        sorted(a),
        is_intersection(a, a, r),
    ensures
        r == a,
{
    assert(a.to_multiset().intersection_with(a.to_multiset()) =~= a.to_multiset());
    lemma_intersection_unique(a, a, r, a);
}

/// The intersection with the empty list is empty, on either side.
pub proof fn lemma_intersection_empty(a: Seq<usize>, r: Seq<usize>)
    requires
        is_intersection(a, Seq::<usize>::empty(), r) || is_intersection(
            Seq::<usize>::empty(),
            a,
            r,
        ),
    ensures
        r == Seq::<usize>::empty(),
{
    let e = Seq::<usize>::empty();
    lemma_empty_to_multiset(e);
    assert(r.to_multiset() =~= Multiset::<usize>::empty());
    to_multiset_len(r);
    assert(r =~= e);
}

} // verus!
