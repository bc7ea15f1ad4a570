//! Slice utilities.
use crate::algorithm::order::{equivalent, precedes, TotalOrder};
use vstd::prelude::*;
use vstd::seq_lib::{to_multiset_insert, to_multiset_remove};

verus! {

/// Later elements never come before earlier ones: the greatest comes first.
pub open spec fn sorted_descending<T: TotalOrder>(s: Seq<T>) -> bool {
    forall|i: int, j: int| 0 <= i <= j < s.len() ==> #[trigger] s[j].leq(#[trigger] s[i])
}

/// The elements equivalent to `t`, in the order in which they occur.
pub open spec fn class_of<T: TotalOrder>(s: Seq<T>, t: T) -> Seq<T> {
    s.filter(|y: T| equivalent(y, t))
}

/// Sorts the slice from the greatest element to the smallest. The sort is
/// stable: equivalent elements keep their relative order.
///
/// ```
/// use rusty_markets::lsl::slice::sort_descending;
/// let mut x = [1, 3, 2];
/// sort_descending(&mut x);
/// assert_eq!(x, [3, 2, 1]);
/// ```
pub fn sort_descending<T: TotalOrder>(x: &mut [T])
    ensures
        sorted_descending(final(x)@),
        final(x)@.to_multiset() == old(x)@.to_multiset(),
        forall|t: T| #[trigger] class_of(final(x)@, t) == class_of(old(x)@, t),
{
    let n = x.len();
    let mut i: usize = 0;
    while i < n
        invariant
            n == x@.len(),
            i <= n,
            sorted_descending(x@.take(i as int)),
            x@.to_multiset() == old(x)@.to_multiset(),
            forall|t: T| #[trigger] class_of(x@, t) == class_of(old(x)@, t),
        decreases n - i,
    {
        let ghost s = x@;
        let v = x[i];
        let mut j: usize = i;
        // Shift right the sorted elements that are strictly smaller than v.
        while j > 0 && !v.compare_leq(&x[j - 1])
            invariant
                n == x@.len(),
                j <= i < n,
                s[i as int] == v,
                forall|k: int| 0 <= k < j ==> #[trigger] x@[k] == s[k],
                forall|k: int| j < k <= i ==> #[trigger] x@[k] == s[k - 1],
                forall|k: int| i < k < n ==> #[trigger] x@[k] == s[k],
                forall|k: int| j <= k < i ==> precedes(#[trigger] s[k], v),
            decreases j,
        {
            let y = x[j - 1];
            x[j] = y;
            j -= 1;
        }
        x[j] = v;
        proof {
            lemma_insert_step(s, i as int, j as int, x@);
        }
        i += 1;
    }
    proof {
        assert(x@.take(n as int) =~= x@);
    }
}

/// Moving `s[i]` to position `j`, past elements strictly below it, keeps a
/// sorted prefix sorted and changes neither the multiset nor any class order.
proof fn lemma_insert_step<T: TotalOrder>(s: Seq<T>, i: int, j: int, r: Seq<T>)
    requires
        0 <= j <= i < s.len(),
        sorted_descending(s.take(i)),
        j > 0 ==> s[i].leq(s[j - 1]),
        forall|k: int| j <= k < i ==> precedes(#[trigger] s[k], s[i]),
        r.len() == s.len(),
        r[j] == s[i],
        forall|k: int| 0 <= k < j ==> #[trigger] r[k] == s[k],
        forall|k: int| j < k <= i ==> #[trigger] r[k] == s[k - 1],
        forall|k: int| i < k < s.len() ==> #[trigger] r[k] == s[k],
    ensures
        sorted_descending(r.take(i + 1)),
        r.to_multiset() == s.to_multiset(),
        forall|t: T| #[trigger] class_of(r, t) == class_of(s, t),
{
    let v = s[i];
    assert(r =~= s.remove(i).insert(j, v));
    to_multiset_remove(s, i);
    to_multiset_insert(s.remove(i), j, v);
    assert(s.to_multiset().contains(v)) by {
        broadcast use vstd::seq_lib::group_to_multiset_ensures;

        assert(s.contains(v));
    }
    assert(s.to_multiset().remove(v).insert(v) =~= s.to_multiset()) by {
        broadcast use vstd::multiset::group_multiset_axioms;

    }
    // Sortedness of the prefix.
    let p = r.take(i + 1);
    assert forall|a: int, b: int| 0 <= a <= b < p.len() implies #[trigger] p[b].leq(
        #[trigger] p[a],
    ) by {
        T::lemma_reflexive(v);
        if a < j && b < j {
            assert(s.take(i)[b].leq(s.take(i)[a]));
        } else if a < j && b == j {
            assert(s.take(i)[j - 1].leq(s.take(i)[a]));
            T::lemma_transitive(v, s[j - 1], s[a]);
        } else if a < j && b > j {
            assert(s.take(i)[b - 1].leq(s.take(i)[a]));
        } else if a == j && b > j {
            assert(precedes(s[b - 1], v));
            T::lemma_total(s[b - 1], v);
        } else if a > j {
            assert(s.take(i)[b - 1].leq(s.take(i)[a - 1]));
        }
    }
    // The order within each class of equivalent elements.
    assert forall|t: T| #[trigger] class_of(r, t) == class_of(s, t) by {
        let f = |y: T| equivalent(y, t);
        let a = s.subrange(0, j);
        let b = s.subrange(j, i);
        let c = s.subrange(i + 1, s.len() as int);
        assert(s =~= a + b + seq![v] + c);
        assert(r =~= a + seq![v] + b + c);
        broadcast use Seq::filter_distributes_over_add;

        if equivalent(v, t) {
            assert(b.filter(f) =~= Seq::<T>::empty()) by {
                if b.filter(f).len() > 0 {
                    let y = b.filter(f)[0];
                    b.lemma_filter_pred(f, 0);
                    assert(b.filter(f).contains(y));
                    b.lemma_filter_contains_rev(f, y);
                    let k = choose|k: int| 0 <= k < b.len() && b[k] == y;
                    assert(precedes(s[j + k], v));
                    T::lemma_transitive(v, t, y);
                }
            }
        } else {
            assert(seq![v].filter(f) =~= Seq::<T>::empty()) by {
                reveal_with_fuel(Seq::filter, 2);
                assert(seq![v].drop_last() =~= Seq::<T>::empty());
            }
        }
        assert((a + b + seq![v] + c).filter(f) =~= a.filter(f) + b.filter(f) + seq![v].filter(f)
            + c.filter(f));
        assert((a + seq![v] + b + c).filter(f) =~= a.filter(f) + seq![v].filter(f) + b.filter(f)
            + c.filter(f));
    }
}

} // verus!
