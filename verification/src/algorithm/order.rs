//! Total preorders and the "k smallest elements of a pool" relation.
use vstd::prelude::*;

verus! {

/// A total preorder on the values of a type, with an executable comparison.
///
/// Two values may compare as equivalent without being identical (two decimals
/// `1.0` and `1.00`, for instance); everything stated in terms of this order
/// therefore holds up to equivalence.
pub trait TotalOrder: Sized + Copy {
    /// `self` comes before `other`, or is equivalent to it.
    spec fn leq(self, other: Self) -> bool;

    proof fn lemma_reflexive(x: Self)
        ensures
            x.leq(x),
    ;

    proof fn lemma_transitive(x: Self, y: Self, z: Self)
        requires
            x.leq(y),
            y.leq(z),
        ensures
            x.leq(z),
    ;

    proof fn lemma_total(x: Self, y: Self)
        ensures
            x.leq(y) || y.leq(x),
    ;

    /// Executable form of `leq`.
    fn compare_leq(&self, other: &Self) -> (r: bool)
        ensures
            r == self.leq(*other),
    ;
}

/// `x` strictly precedes `y`.
pub open spec fn precedes<T: TotalOrder>(x: T, y: T) -> bool {
    !y.leq(x)
}

/// `x` and `y` are equivalent under the order.
pub open spec fn equivalent<T: TotalOrder>(x: T, y: T) -> bool {
    x.leq(y) && y.leq(x)
}

/// The sequence is in non-decreasing order.
pub open spec fn sorted<T: TotalOrder>(s: Seq<T>) -> bool {
    forall|i: int, j: int| 0 <= i <= j < s.len() ==> #[trigger] s[i].leq(#[trigger] s[j])
}

/// Same length, and equivalent elements at every position.
pub open spec fn seq_equivalent<T: TotalOrder>(a: Seq<T>, b: Seq<T>) -> bool {
    &&& a.len() == b.len()
    &&& forall|i: int| 0 <= i < a.len() ==> #[trigger] equivalent(a[i], b[i])
}

/// Number of elements of `s` that come before `t` or are equivalent to it.
pub open spec fn count_leq<T: TotalOrder>(s: Seq<T>, t: T) -> nat
    decreases s.len(),
{
    if s.len() == 0 {
        0
    } else {
        count_leq(s.drop_last(), t) + if s.last().leq(t) {
            1nat
        } else {
            0nat
        }
    }
}

/// Number of elements of `s` that strictly precede `t`.
pub open spec fn count_lt<T: TotalOrder>(s: Seq<T>, t: T) -> nat
    decreases s.len(),
{
    if s.len() == 0 {
        0
    } else {
        count_lt(s.drop_last(), t) + if precedes(s.last(), t) {
            1nat
        } else {
            0nat
        }
    }
}

pub open spec fn min_nat(a: nat, b: nat) -> nat {
    if a <= b {
        a
    } else {
        b
    }
}

/// `r` is the sorted list of the `k` smallest elements of `pool`, up to
/// equivalence: it has `min(k, |pool|)` elements, and the element at position
/// `i` is one that a sorted copy of `pool` could hold at position `i`
/// (fewer than `i + 1` elements of the pool precede it strictly, more than `i`
/// precede it or are equivalent to it).
pub open spec fn is_k_smallest<T: TotalOrder>(r: Seq<T>, k: nat, pool: Seq<T>) -> bool {
    &&& sorted(r)
    &&& r.len() == min_nat(k, pool.len())
    &&& forall|i: int|
        0 <= i < r.len() ==> count_lt(pool, #[trigger] r[i]) <= i < count_leq(pool, r[i])
}

/// Two pools that no comparison can tell apart.
pub open spec fn same_counts<T: TotalOrder>(p: Seq<T>, q: Seq<T>) -> bool {
    &&& p.len() == q.len()
    &&& forall|t: T|
        #![trigger count_leq(p, t)]
        #![trigger count_leq(q, t)]
        #![trigger count_lt(p, t)]
        #![trigger count_lt(q, t)]
        count_leq(p, t) == count_leq(q, t) && count_lt(p, t) == count_lt(q, t)
}

pub proof fn lemma_order_facts<T: TotalOrder>()
    ensures
        forall|x: T| #[trigger] x.leq(x),
        forall|x: T, y: T| #[trigger] x.leq(y) || #[trigger] y.leq(x),
{
    assert forall|x: T| #[trigger] x.leq(x) by {
        T::lemma_reflexive(x);
    }
    assert forall|x: T, y: T| #[trigger] x.leq(y) || #[trigger] y.leq(x) by {
        T::lemma_total(x, y);
    }
}

pub proof fn lemma_count_bounds<T: TotalOrder>(s: Seq<T>, t: T)
    ensures
        count_lt(s, t) <= count_leq(s, t) <= s.len(),
    decreases s.len(),
{
    if s.len() > 0 {
        lemma_count_bounds(s.drop_last(), t);
        T::lemma_total(s.last(), t);
    }
}

pub proof fn lemma_count_add<T: TotalOrder>(a: Seq<T>, b: Seq<T>, t: T)
    ensures
        count_leq(a + b, t) == count_leq(a, t) + count_leq(b, t),
        count_lt(a + b, t) == count_lt(a, t) + count_lt(b, t),
    decreases b.len(),
{
    if b.len() == 0 {
        assert(a + b =~= a);
    } else {
        lemma_count_add(a, b.drop_last(), t);
        assert((a + b).drop_last() =~= a + b.drop_last());
        assert((a + b).last() == b.last());
    }
}

/// Counting respects the order: a later threshold counts at least as much.
pub proof fn lemma_count_monotonic<T: TotalOrder>(s: Seq<T>, t1: T, t2: T)
    requires
        t1.leq(t2),
    ensures
        count_leq(s, t1) <= count_leq(s, t2),
        count_lt(s, t1) <= count_lt(s, t2),
    decreases s.len(),
{
    if s.len() > 0 {
        lemma_count_monotonic(s.drop_last(), t1, t2);
        let x = s.last();
        if x.leq(t1) {
            T::lemma_transitive(x, t1, t2);
        }
        if t2.leq(x) {
            T::lemma_transitive(t1, t2, x);
        }
    }
}

/// What is at most `t1` strictly precedes `t2`, when `t1` strictly precedes `t2`.
pub proof fn lemma_count_strict<T: TotalOrder>(s: Seq<T>, t1: T, t2: T)
    requires
        precedes(t1, t2),
    ensures
        count_leq(s, t1) <= count_lt(s, t2),
    decreases s.len(),
{
    if s.len() > 0 {
        lemma_count_strict(s.drop_last(), t1, t2);
        let x = s.last();
        if x.leq(t1) && t2.leq(x) {
            T::lemma_transitive(t2, x, t1);
        }
    }
}

pub proof fn lemma_count_equivalent<T: TotalOrder>(s: Seq<T>, t1: T, t2: T)
    requires
        equivalent(t1, t2),
    ensures
        count_leq(s, t1) == count_leq(s, t2),
        count_lt(s, t1) == count_lt(s, t2),
{
    lemma_count_monotonic(s, t1, t2);
    lemma_count_monotonic(s, t2, t1);
}

/// In a sorted sequence, `count_lt` splits it at the first element not below `t`.
pub proof fn lemma_sorted_count_lt<T: TotalOrder>(s: Seq<T>, t: T)
    requires
        sorted(s),
    ensures
        count_lt(s, t) <= s.len(),
        count_lt(s, t) > 0 ==> precedes(s[count_lt(s, t) - 1], t),
        count_lt(s, t) < s.len() ==> t.leq(s[count_lt(s, t) as int]),
    decreases s.len(),
{
    lemma_count_bounds(s, t);
    if s.len() > 0 {
        let s2 = s.drop_last();
        assert(sorted(s2));
        lemma_sorted_count_lt(s2, t);
        lemma_count_bounds(s2, t);
        let m2 = count_lt(s2, t);
        if precedes(s.last(), t) {
            if m2 < s2.len() {
                let y = s2[m2 as int];
                assert(y.leq(s.last()));
                T::lemma_transitive(t, y, s.last());
            }
        }
    }
}

/// In a sorted sequence, `count_leq` splits it at the first element after `t`.
pub proof fn lemma_sorted_count_leq<T: TotalOrder>(s: Seq<T>, t: T)
    requires
        sorted(s),
    ensures
        count_leq(s, t) <= s.len(),
        count_leq(s, t) > 0 ==> s[count_leq(s, t) - 1].leq(t),
        count_leq(s, t) < s.len() ==> precedes(t, s[count_leq(s, t) as int]),
    decreases s.len(),
{
    lemma_count_bounds(s, t);
    if s.len() > 0 {
        let s2 = s.drop_last();
        assert(sorted(s2));
        lemma_sorted_count_leq(s2, t);
        lemma_count_bounds(s2, t);
        let m2 = count_leq(s2, t);
        if s.last().leq(t) {
            if m2 < s2.len() {
                let y = s2[m2 as int];
                assert(y.leq(s.last()));
                T::lemma_transitive(y, s.last(), t);
            }
        }
    }
}

/// A sorted sequence with at most `k` elements is its own `k` smallest.
pub proof fn lemma_sorted_is_k_smallest<T: TotalOrder>(s: Seq<T>, k: nat)
    requires
        sorted(s),
        s.len() <= k,
    ensures
        is_k_smallest(s, k, s),
{
    assert forall|i: int| 0 <= i < s.len() implies count_lt(s, #[trigger] s[i]) <= i < count_leq(
        s,
        s[i],
    ) by {
        let t = s[i];
        lemma_sorted_count_lt(s, t);
        lemma_sorted_count_leq(s, t);
        T::lemma_reflexive(t);
        let m = count_lt(s, t);
        if m > i {
            assert(precedes(s[m - 1], t));
            assert(t.leq(s[m - 1]));
        }
        let n = count_leq(s, t);
        if n <= i {
            assert(precedes(t, s[n as int]));
            assert(s[n as int].leq(t));
        }
    }
}

/// Comparisons only see counts, so pools with the same counts have the same
/// `k` smallest.
pub proof fn lemma_same_counts_k_smallest<T: TotalOrder>(r: Seq<T>, k: nat, p: Seq<T>, q: Seq<T>)
    requires
        is_k_smallest(r, k, p),
        same_counts(p, q),
    ensures
        is_k_smallest(r, k, q),
{
    assert forall|i: int| 0 <= i < r.len() implies count_lt(q, #[trigger] r[i]) <= i < count_leq(
        q,
        r[i],
    ) by {
        assert(count_lt(p, r[i]) <= i < count_leq(p, r[i]));
    }
}

pub proof fn lemma_same_counts_transitive<T: TotalOrder>(a: Seq<T>, b: Seq<T>, c: Seq<T>)
    requires
        same_counts(a, b),
        same_counts(b, c),
    ensures
        same_counts(a, c),
{
    assert forall|t: T| #[trigger]
        count_leq(a, t) == count_leq(c, t) && count_lt(a, t) == count_lt(c, t) by {
        assert(count_leq(a, t) == count_leq(b, t) && count_lt(a, t) == count_lt(b, t));
        assert(count_leq(b, t) == count_leq(c, t) && count_lt(b, t) == count_lt(c, t));
    }
}

/// Regrouping three pools does not change any count.
pub proof fn lemma_same_counts_rotate<T: TotalOrder>(a: Seq<T>, b: Seq<T>, c: Seq<T>)
    ensures
        same_counts(c + (a + b), a + (b + c)),
{
    assert forall|t: T| #[trigger]
        count_leq(c + (a + b), t) == count_leq(a + (b + c), t) && count_lt(c + (a + b), t)
            == count_lt(a + (b + c), t) by {
        lemma_count_add(c, a + b, t);
        lemma_count_add(a, b, t);
        lemma_count_add(a, b + c, t);
        lemma_count_add(b, c, t);
    }
}

/// Counting sees only the multiset of a pool: reordering it changes nothing.
pub proof fn lemma_permutation_same_counts<T: TotalOrder>(a: Seq<T>, b: Seq<T>)
    requires
        a.to_multiset() == b.to_multiset(),
    ensures
        same_counts(a, b),
    decreases a.len(),
{
    broadcast use vstd::seq_lib::group_to_multiset_ensures;
    broadcast use vstd::multiset::group_multiset_axioms;

    if a.len() == 0 {
        assert(b.to_multiset().len() == 0);
        assert(b =~= Seq::<T>::empty());
    } else {
        let x = a.last();
        let a2 = a.drop_last();
        assert(a2.push(x) =~= a);
        assert(a.to_multiset().count(x) > 0);
        assert(b.contains(x));
        let j = choose|j: int| 0 <= j < b.len() && b[j] == x;
        let b2 = b.remove(j);
        assert(b2.to_multiset() =~= b.to_multiset().remove(x));
        assert(a2.to_multiset() =~= a.to_multiset().remove(x));
        lemma_permutation_same_counts(a2, b2);
        let left = b.subrange(0, j);
        let right = b.subrange(j + 1, b.len() as int);
        assert(b =~= left + seq![x] + right);
        assert(b2 =~= left + right);
        assert forall|t: T| #[trigger]
            count_leq(a, t) == count_leq(b, t) && count_lt(a, t) == count_lt(b, t) by {
            assert(count_leq(a2, t) == count_leq(b2, t) && count_lt(a2, t) == count_lt(b2, t));
            lemma_count_add(left, right, t);
            lemma_count_add(left + seq![x], right, t);
            lemma_count_add(left, seq![x], t);
            assert(seq![x].drop_last() =~= Seq::<T>::empty());
            assert(seq![x].last() == x);
            reveal_with_fuel(count_leq, 2);
            reveal_with_fuel(count_lt, 2);
            assert(count_leq(seq![x], t) == if x.leq(t) { 1nat } else { 0nat });
            assert(count_lt(seq![x], t) == if precedes(x, t) { 1nat } else { 0nat });
            assert(count_leq(b, t) == count_leq(b2, t) + count_leq(seq![x], t));
            assert(count_lt(b, t) == count_lt(b2, t) + count_lt(seq![x], t));
            assert(count_leq(a, t) == count_leq(a2, t) + count_leq(seq![x], t));
            assert(count_lt(a, t) == count_lt(a2, t) + count_lt(seq![x], t));
        }
    }
}

/// The order in which two pools are joined does not matter.
pub proof fn lemma_same_counts_commute<T: TotalOrder>(a: Seq<T>, b: Seq<T>)
    ensures
        same_counts(a + b, b + a),
{
    assert forall|t: T| #[trigger]
        count_leq(a + b, t) == count_leq(b + a, t) && count_lt(a + b, t) == count_lt(b + a, t) by {
        lemma_count_add(a, b, t);
        lemma_count_add(b, a, t);
    }
}

/// The `k` smallest are defined up to equivalence: replacing each element by an
/// equivalent one keeps the relation.
pub proof fn lemma_equivalent_k_smallest<T: TotalOrder>(a: Seq<T>, b: Seq<T>, k: nat, p: Seq<T>)
    requires
        is_k_smallest(a, k, p),
        seq_equivalent(a, b),
    ensures
        is_k_smallest(b, k, p),
{
    assert forall|i: int, j: int| 0 <= i <= j < b.len() implies #[trigger] b[i].leq(
        #[trigger] b[j],
    ) by {
        assert(equivalent(a[i], b[i]));
        assert(equivalent(a[j], b[j]));
        assert(a[i].leq(a[j]));
        T::lemma_transitive(b[i], a[i], a[j]);
        T::lemma_transitive(b[i], a[j], b[j]);
    }
    assert forall|i: int| 0 <= i < b.len() implies count_lt(p, #[trigger] b[i]) <= i < count_leq(
        p,
        b[i],
    ) by {
        assert(equivalent(a[i], b[i]));
        assert(count_lt(p, a[i]) <= i < count_leq(p, a[i]));
        lemma_count_equivalent(p, a[i], b[i]);
    }
}

/// Two lists that are both the `k` smallest of a pool agree position by
/// position, up to equivalence.
pub proof fn lemma_k_smallest_unique<T: TotalOrder>(a: Seq<T>, b: Seq<T>, k: nat, p: Seq<T>)
    requires
        is_k_smallest(a, k, p),
        is_k_smallest(b, k, p),
    ensures
        seq_equivalent(a, b),
{
    assert forall|i: int| 0 <= i < a.len() implies #[trigger] equivalent(a[i], b[i]) by {
        assert(count_lt(p, a[i]) <= i < count_leq(p, a[i]));
        assert(count_lt(p, b[i]) <= i < count_leq(p, b[i]));
        if !a[i].leq(b[i]) {
            lemma_count_strict(p, b[i], a[i]);
        }
        if !b[i].leq(a[i]) {
            lemma_count_strict(p, a[i], b[i]);
        }
    }
}

/// Where the order is antisymmetric, the `k` smallest of a pool are unique.
pub proof fn lemma_k_smallest_unique_exact<T: TotalOrder>(a: Seq<T>, b: Seq<T>, k: nat, p: Seq<T>)
    requires
        forall|x: T, y: T| #[trigger] x.leq(y) && #[trigger] y.leq(x) ==> x == y,
        is_k_smallest(a, k, p),
        is_k_smallest(b, k, p),
    ensures
        a == b,
{
    lemma_k_smallest_unique(a, b, k, p);
    assert forall|i: int| 0 <= i < a.len() implies a[i] == b[i] by {
        assert(equivalent(a[i], b[i]));
    }
    assert(a =~= b);
}

/// The `k` smallest of a pool determine how many pool elements lie below any
/// threshold, counted up to `k`.
pub proof fn lemma_k_smallest_counts<T: TotalOrder>(x: Seq<T>, k: nat, p: Seq<T>, t: T)
    requires
        is_k_smallest(x, k, p),
    ensures
        count_lt(x, t) == min_nat(k, count_lt(p, t)),
        count_leq(x, t) == min_nat(k, count_leq(p, t)),
{
    lemma_count_bounds(p, t);
    lemma_sorted_count_lt(x, t);
    let m = count_lt(x, t);
    if m > 0 {
        let y = x[m - 1];
        assert(count_lt(p, y) <= m - 1 < count_leq(p, y));
        lemma_count_strict(p, y, t);
    }
    if m < x.len() {
        let y = x[m as int];
        assert(count_lt(p, y) <= m < count_leq(p, y));
        lemma_count_monotonic(p, t, y);
    }
    lemma_sorted_count_leq(x, t);
    let n = count_leq(x, t);
    if n > 0 {
        let y = x[n - 1];
        assert(count_lt(p, y) <= n - 1 < count_leq(p, y));
        lemma_count_monotonic(p, y, t);
    }
    if n < x.len() {
        let y = x[n as int];
        assert(count_lt(p, y) <= n < count_leq(p, y));
        lemma_count_strict(p, t, y);
    }
}

/// The `k` smallest of a union are the `k` smallest of the union of the
/// `k` smallest of each part.
pub proof fn lemma_k_smallest_of_parts<T: TotalOrder>(
    y: Seq<T>,
    a: Seq<T>,
    b: Seq<T>,
    k: nat,
    p: Seq<T>,
    q: Seq<T>,
)
    requires
        is_k_smallest(y, k, a + b),
        is_k_smallest(a, k, p),
        is_k_smallest(b, k, q),
    ensures
        is_k_smallest(y, k, p + q),
{
    assert forall|i: int| 0 <= i < y.len() implies count_lt(p + q, #[trigger] y[i]) <= i
        < count_leq(p + q, y[i]) by {
        let t = y[i];
        lemma_count_add(a, b, t);
        lemma_count_add(p, q, t);
        lemma_k_smallest_counts(a, k, p, t);
        lemma_k_smallest_counts(b, k, q, t);
    }
}

impl TotalOrder for i32 {
    open spec fn leq(self, other: Self) -> bool {
        self <= other
    }

    proof fn lemma_reflexive(x: Self) {
    }

    proof fn lemma_transitive(x: Self, y: Self, z: Self) {
    }

    proof fn lemma_total(x: Self, y: Self) {
    }

    fn compare_leq(&self, other: &Self) -> (r: bool) {
        *self <= *other
    }
}

} // verus!
