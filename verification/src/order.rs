//! Lexicographic order on integer sequences, and sorted lists without repeats.
//!
//! Names are ordered by the code points of their characters, index lists by
//! their elements. Both are instances of one order on sequences of integers.
//! The canonical lists of the domain model are strictly ascending in it, so a
//! value is found by binary search and a canonical list is determined by the
//! set of values it holds.

use vstd::prelude::*;

verus! {

/// The sequences `a` and `b` are equal at every position below `k`.
pub open spec fn agree_before(a: Seq<int>, b: Seq<int>, k: int) -> bool {
    &&& 0 <= k <= a.len()
    &&& k <= b.len()
    &&& forall|j: int| 0 <= j < k ==> a[j] == b[j]
}

/// Lexicographic order: `a` is a proper prefix of `b`, or at the first
/// position where they differ `a` holds the smaller value.
pub open spec fn lex_lt(a: Seq<int>, b: Seq<int>) -> bool {
    exists|k: int| #[trigger] agree_before(a, b, k) && k < b.len() && (k == a.len() || a[k] < b[k])
}

/// Once the first position `i` is known at which two sequences stop agreeing,
/// their order is decided there.
pub proof fn lemma_lex_decide(a: Seq<int>, b: Seq<int>, i: int)
    requires
        agree_before(a, b, i),
        i == a.len() || i == b.len() || a[i] != b[i],
    ensures
        lex_lt(a, b) == (i < b.len() && (i == a.len() || a[i] < b[i])),
        lex_lt(b, a) == (i < a.len() && (i == b.len() || b[i] < a[i])),
        (a == b) == (i == a.len() && i == b.len()),
{
    assert(agree_before(b, a, i));
    if lex_lt(a, b) {
        let k = choose|k: int| #[trigger]
            agree_before(a, b, k) && k < b.len() && (k == a.len() || a[k] < b[k]);
        assert(k == i);
    }
    if lex_lt(b, a) {
        let k = choose|k: int| #[trigger]
            agree_before(b, a, k) && k < a.len() && (k == b.len() || b[k] < a[k]);
        assert(k == i);
    }
    if i == a.len() && i == b.len() {
        assert(a =~= b);
    }
}

/// Two sequences that agree below `i` stop agreeing at some position from `i` on.
pub proof fn lemma_first_difference(a: Seq<int>, b: Seq<int>, i: int) -> (k: int)
    requires
        agree_before(a, b, i),
    ensures
        agree_before(a, b, k),
        k == a.len() || k == b.len() || a[k] != b[k],
    decreases a.len() - i,
{
    if i < a.len() && i < b.len() && a[i] == b[i] {
        lemma_first_difference(a, b, i + 1)
    } else {
        i
    }
}

/// Of two sequences one comes before the other, or they are equal; never two of these.
pub proof fn lemma_lex_trichotomy(a: Seq<int>, b: Seq<int>)
    ensures
        lex_lt(a, b) || lex_lt(b, a) || a == b,
        !(lex_lt(a, b) && lex_lt(b, a)),
        !(lex_lt(a, b) && a == b),
        !(lex_lt(b, a) && a == b),
{
    let k = lemma_first_difference(a, b, 0);
    lemma_lex_decide(a, b, k);
}

/// The order is transitive.
pub proof fn lemma_lex_transitive(a: Seq<int>, b: Seq<int>, c: Seq<int>)
    requires
        lex_lt(a, b),
        lex_lt(b, c),
    ensures
        lex_lt(a, c),
{
    let k1 = choose|k: int| #[trigger]
        agree_before(a, b, k) && k < b.len() && (k == a.len() || a[k] < b[k]);
    let k2 = choose|k: int| #[trigger]
        agree_before(b, c, k) && k < c.len() && (k == b.len() || b[k] < c[k]);
    let k = if k1 <= k2 {
        k1
    } else {
        k2
    };
    assert(agree_before(a, c, k));
}

/// A type whose values are ordered by a sequence of integers.
pub trait Ranked {
    /// The sequence of integers by which the value is ordered.
    spec fn rank(&self) -> Seq<int>;

    /// Whether `self` comes strictly before `other`.
    fn before(&self, other: &Self) -> (r: bool)
        ensures
            r == lex_lt(self.rank(), other.rank()),
    ;
}

/// The code points of a name.
pub open spec fn codes(s: Seq<char>) -> Seq<int> {
    Seq::new(s.len(), |i: int| s[i] as int)
}

/// An index list as a sequence of integers.
pub open spec fn ints(s: Seq<usize>) -> Seq<int> {
    Seq::new(s.len(), |i: int| s[i] as int)
}

/// The order of names: lexicographic by code point.
pub open spec fn name_lt(a: Seq<char>, b: Seq<char>) -> bool {
    lex_lt(codes(a), codes(b))
}

/// Names with the same code points are the same name.
pub proof fn lemma_codes_injective(a: Seq<char>, b: Seq<char>)
    requires
        codes(a) == codes(b),
    ensures
        a == b,
{
    assert(a.len() == codes(a).len());
    assert(b.len() == codes(b).len());
    assert forall|i: int| 0 <= i < a.len() implies a[i] == b[i] by {
        assert(codes(a)[i] == a[i] as int);
        assert(codes(b)[i] == b[i] as int);
    }
    assert(a =~= b);
}

/// Index lists with the same integers are the same list.
pub proof fn lemma_ints_injective(a: Seq<usize>, b: Seq<usize>)
    requires
        ints(a) == ints(b),
    ensures
        a == b,
{
    assert(a.len() == ints(a).len());
    assert(b.len() == ints(b).len());
    assert forall|i: int| 0 <= i < a.len() implies a[i] == b[i] by {
        assert(ints(a)[i] == a[i] as int);
        assert(ints(b)[i] == b[i] as int);
    }
    assert(a =~= b);
}

impl Ranked for usize {
    open spec fn rank(&self) -> Seq<int> {
        seq![*self as int]
    }

    fn before(&self, other: &Self) -> (r: bool) {
        proof {
            let a = self.rank();
            let b = other.rank();
            assert(agree_before(a, b, 0));
            if *self == *other {
                assert(agree_before(a, b, 1));
                lemma_lex_decide(a, b, 1);
            } else {
                lemma_lex_decide(a, b, 0);
            }
        }
        *self < *other
    }
}

impl Ranked for String {
    open spec fn rank(&self) -> Seq<int> {
        codes(self@)
    }

    fn before(&self, other: &Self) -> (r: bool) {
        let a = self.as_str();
        let b = other.as_str();
        let la = a.unicode_len();
        let lb = b.unicode_len();
        let ghost ra = codes(self@);
        let ghost rb = codes(other@);
        let mut i: usize = 0;
        while i < la && i < lb
            invariant
                a@ == self@,
                b@ == other@,
                la == self@.len(),
                lb == other@.len(),
                ra == codes(self@),
                rb == codes(other@),
                agree_before(ra, rb, i as int),
            decreases la - i,
        {
            let ca = a.get_char(i);
            let cb = b.get_char(i);
            if ca != cb {
                proof {
                    lemma_lex_decide(ra, rb, i as int);
                }
                return ca < cb;
            }
            i += 1;
        }
        proof {
            lemma_lex_decide(ra, rb, i as int);
        }
        i < lb
    }
}

impl Ranked for Vec<usize> {
    open spec fn rank(&self) -> Seq<int> {
        ints(self@)
    }

    fn before(&self, other: &Self) -> (r: bool) {
        let la = self.len();
        let lb = other.len();
        let ghost ra = ints(self@);
        let ghost rb = ints(other@);
        let mut i: usize = 0;
        while i < la && i < lb
            invariant
                la == self@.len(),
                lb == other@.len(),
                ra == ints(self@),
                rb == ints(other@),
                agree_before(ra, rb, i as int),
            decreases la - i,
        {
            let x = self[i];
            let y = other[i];
            if x != y {
                proof {
                    lemma_lex_decide(ra, rb, i as int);
                }
                return x < y;
            }
            i += 1;
        }
        proof {
            lemma_lex_decide(ra, rb, i as int);
        }
        i < lb
    }
}

/// A named group is ordered by its name.
impl Ranked for (String, Vec<usize>) {
    open spec fn rank(&self) -> Seq<int> {
        codes(self.0@)
    }

    fn before(&self, other: &Self) -> (r: bool) {
        self.0.before(&other.0)
    }
}

/// Strictly ascending by rank: every element comes before each one after it.
pub open spec fn strictly_ranked<T: Ranked>(s: Seq<T>) -> bool {
    forall|i: int, j: int| 0 <= i < j < s.len() ==> lex_lt(#[trigger] s[i].rank(), #[trigger] s[j].rank())
}

/// Some element of `s` has the rank `r`.
pub open spec fn has_rank<T: Ranked>(s: Seq<T>, r: Seq<int>) -> bool {
    exists|i: int| 0 <= i < s.len() && #[trigger] s[i].rank() == r
}

/// In a strictly ascending list no two elements share a rank.
pub proof fn lemma_ranks_distinct<T: Ranked>(s: Seq<T>, i: int, j: int)
    requires
        strictly_ranked(s),
        0 <= i < s.len(),
        0 <= j < s.len(),
        s[i].rank() == s[j].rank(),
    ensures
        i == j,
{
    lemma_lex_trichotomy(s[i].rank(), s[j].rank());
}

/// Two lists that are strictly ascending by the same key and hold the same
/// values are the same list.
pub proof fn lemma_ascending_unique<A>(s: Seq<A>, t: Seq<A>, key: spec_fn(A) -> Seq<int>)
    requires
        forall|i: int, j: int| 0 <= i < j < s.len() ==> lex_lt(#[trigger] key(s[i]), #[trigger] key(s[j])),
        forall|i: int, j: int| 0 <= i < j < t.len() ==> lex_lt(#[trigger] key(t[i]), #[trigger] key(t[j])),
        forall|x: A| s.contains(x) <==> t.contains(x),
    ensures
        s == t,
    decreases s.len(),
{
    if s.len() == 0 {
        if t.len() > 0 {
            assert(t.contains(t[0]));
        }
        assert(s =~= t);
    } else {
        assert(s.contains(s[0]));
        assert(t.contains(s[0]));
        let k = choose|k: int| 0 <= k < t.len() && t[k] == s[0];
        assert(t.contains(t[0]));
        let m = choose|m: int| 0 <= m < s.len() && s[m] == t[0];
        if k > 0 {
            assert(lex_lt(key(t[0]), key(t[k])));
            if m > 0 {
                assert(lex_lt(key(s[0]), key(s[m])));
                lemma_lex_trichotomy(key(s[0]), key(t[0]));
            } else {
                lemma_lex_trichotomy(key(s[0]), key(s[0]));
            }
        }
        assert(s[0] == t[0]);
        let s1 = s.drop_first();
        let t1 = t.drop_first();
        assert forall|x: A| s1.contains(x) <==> t1.contains(x) by {
            if s1.contains(x) {
                let i = choose|i: int| 0 <= i < s1.len() && s1[i] == x;
                assert(s[i + 1] == x);
                assert(s.contains(x));
                let j = choose|j: int| 0 <= j < t.len() && t[j] == x;
                if j == 0 {
                    assert(lex_lt(key(s[0]), key(s[i + 1])));
                    lemma_lex_trichotomy(key(s[0]), key(s[0]));
                }
                assert(t1[j - 1] == x);
            }
            if t1.contains(x) {
                let i = choose|i: int| 0 <= i < t1.len() && t1[i] == x;
                assert(t[i + 1] == x);
                assert(t.contains(x));
                let j = choose|j: int| 0 <= j < s.len() && s[j] == x;
                if j == 0 {
                    assert(lex_lt(key(t[0]), key(t[i + 1])));
                    lemma_lex_trichotomy(key(t[0]), key(t[0]));
                }
                assert(s1[j - 1] == x);
            }
        }
        assert forall|i: int, j: int| 0 <= i < j < s1.len() implies lex_lt(
            #[trigger] key(s1[i]),
            #[trigger] key(s1[j]),
        ) by {
            assert(lex_lt(key(s[i + 1]), key(s[j + 1])));
        }
        assert forall|i: int, j: int| 0 <= i < j < t1.len() implies lex_lt(
            #[trigger] key(t1[i]),
            #[trigger] key(t1[j]),
        ) by {
            assert(lex_lt(key(t[i + 1]), key(t[j + 1])));
        }
        lemma_ascending_unique(s1, t1, key);
        assert(s =~= seq![s[0]] + s1);
        assert(t =~= seq![t[0]] + t1);
    }
}

/// Whether the list is strictly ascending by rank.
pub fn is_strictly_ranked<T: Ranked>(v: &Vec<T>) -> (r: bool)
    ensures
        r == strictly_ranked(v@),
{
    if v.len() < 2 {
        return true;
    }
    let mut i: usize = 1;
    while i < v.len()
        invariant
            1 <= i <= v.len(),
            forall|a: int, b: int|
                0 <= a < b < i ==> lex_lt(#[trigger] v@[a].rank(), #[trigger] v@[b].rank()),
        decreases v.len() - i,
    {
        if !v[i - 1].before(&v[i]) {
            return false;
        }
        proof {
            assert forall|a: int, b: int| 0 <= a < b < i + 1 implies lex_lt(
                #[trigger] v@[a].rank(),
                #[trigger] v@[b].rank(),
            ) by {
                if b == i && a < i - 1 {
                    lemma_lex_transitive(v@[a].rank(), v@[i - 1].rank(), v@[i as int].rank());
                }
            }
        }
        i += 1;
    }
    true
}

/// Binary search in a strictly ascending list. `Ok(i)` is the position of the
/// element with the rank of `x`; `Err(i)` says that there is none, and that
/// `i` is where one would stand.
pub fn search<T: Ranked>(v: &Vec<T>, x: &T) -> (r: Result<usize, usize>)
    requires
        strictly_ranked(v@),
    ensures
        match r {
            Ok(i) => i < v.len() && v@[i as int].rank() == x.rank(),
            Err(i) => {
                &&& i <= v.len()
                &&& !has_rank(v@, x.rank())
                &&& forall|k: int| 0 <= k < i ==> lex_lt(#[trigger] v@[k].rank(), x.rank())
                &&& forall|k: int| i <= k < v.len() ==> lex_lt(x.rank(), #[trigger] v@[k].rank())
            },
        },
{
    let mut lo: usize = 0;
    let mut hi: usize = v.len();
    while lo < hi
        invariant
            lo <= hi <= v.len(),
            strictly_ranked(v@),
            forall|k: int| 0 <= k < lo ==> lex_lt(#[trigger] v@[k].rank(), x.rank()),
            forall|k: int| hi <= k < v.len() ==> lex_lt(x.rank(), #[trigger] v@[k].rank()),
        decreases hi - lo,
    {
        let mid = lo + (hi - lo) / 2;
        if v[mid].before(x) {
            proof {
                assert forall|k: int| 0 <= k < mid + 1 implies lex_lt(
                    #[trigger] v@[k].rank(),
                    x.rank(),
                ) by {
                    if k < mid {
                        lemma_lex_transitive(v@[k].rank(), v@[mid as int].rank(), x.rank());
                    }
                }
            }
            lo = mid + 1;
        } else if x.before(&v[mid]) {
            proof {
                assert forall|k: int| mid <= k < v.len() implies lex_lt(
                    x.rank(),
                    #[trigger] v@[k].rank(),
                ) by {
                    if mid < k {
                        lemma_lex_transitive(x.rank(), v@[mid as int].rank(), v@[k].rank());
                    }
                }
            }
            hi = mid;
        } else {
            proof {
                lemma_lex_trichotomy(v@[mid as int].rank(), x.rank());
            }
            return Ok(mid);
        }
    }
    proof {
        assert forall|k: int| 0 <= k < v.len() implies #[trigger] v@[k].rank() != x.rank() by {
            lemma_lex_trichotomy(v@[k].rank(), x.rank());
        }
    }
    Err(lo)
}

/// Puts `x` into a strictly ascending list at its place, unless the list
/// already holds an element of that rank; then the list stays as it is.
/// Returns the position of the element with the rank of `x`.
pub fn insert_unique<T: Ranked>(v: &mut Vec<T>, x: T) -> (pos: usize)
    requires
        strictly_ranked(old(v)@),
    ensures
        strictly_ranked(final(v)@),
        pos < final(v)@.len(),
        pos <= old(v)@.len(),
        final(v)@[pos as int].rank() == x.rank(),
        has_rank(old(v)@, x.rank()) ==> final(v)@ == old(v)@,
        !has_rank(old(v)@, x.rank()) ==> final(v)@ == old(v)@.insert(pos as int, x),
        forall|r: Seq<int>| has_rank(final(v)@, r) <==> has_rank(old(v)@, r) || r == x.rank(),
{
    let ghost xr = x.rank();
    match search(v, &x) {
        Ok(i) => {
            proof {
                assert(v@[i as int].rank() == xr);
            }
            i
        },
        Err(i) => {
            let ghost before = v@;
            v.insert(i, x);
            proof {
                let after = v@;
                assert(after[i as int].rank() == xr);
                assert forall|r: Seq<int>| has_rank(after, r) <==> has_rank(before, r) || r
                    == xr by {
                    if has_rank(before, r) {
                        let k = choose|k: int| 0 <= k < before.len() && #[trigger] before[k].rank() == r;
                        let k1 = if k < i { k } else { k + 1 };
                        assert(after[k1] == before[k]);
                        assert(after[k1].rank() == r);
                    }
                    if has_rank(after, r) && r != xr {
                        let k = choose|k: int| 0 <= k < after.len() && #[trigger] after[k].rank() == r;
                        let k0 = if k < i { k } else { k - 1 };
                        assert(after[k] == before[k0]);
                        assert(before[k0].rank() == r);
                    }
                }
                assert forall|a: int, b: int| 0 <= a < b < after.len() implies lex_lt(
                    #[trigger] after[a].rank(),
                    #[trigger] after[b].rank(),
                ) by {
                    let a0 = if a < i { a } else { a - 1 };
                    let b0 = if b < i { b } else { b - 1 };
                    if a != i && b != i {
                        assert(after[a] == before[a0]);
                        assert(after[b] == before[b0]);
                    } else if a == i {
                        assert(after[b] == before[b0]);
                    } else {
                        assert(after[a] == before[a0]);
                    }
                }
            }
            i
        },
    }
}

} // verus!
