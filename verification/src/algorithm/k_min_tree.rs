//! A tournament tree that keeps the `k` smallest values of the union of its leaves.
use crate::algorithm::order::{
    count_leq, count_lt, equivalent, is_k_smallest, lemma_count_add, lemma_count_bounds,
    lemma_count_monotonic, lemma_equivalent_k_smallest, lemma_k_smallest_of_parts, lemma_k_smallest_unique,
    lemma_order_facts, lemma_permutation_same_counts, lemma_same_counts_commute, lemma_same_counts_k_smallest,
    lemma_same_counts_rotate, lemma_same_counts_transitive, lemma_sorted_is_k_smallest, precedes,
    same_counts, seq_equivalent, sorted, TotalOrder,
};
use std::collections::VecDeque;
use vstd::prelude::*;

verus! {

/// The first `n` elements of the merge of `l` and `r`, taking from `l` first
/// on ties.
pub open spec fn merge_spec<T: TotalOrder>(n: nat, l: Seq<T>, r: Seq<T>) -> Seq<T>
    decreases l.len() + r.len(),
{
    if n == 0 || (l.len() == 0 && r.len() == 0) {
        Seq::empty()
    } else if l.len() > 0 && (r.len() == 0 || l[0].leq(r[0])) {
        seq![l[0]] + merge_spec((n - 1) as nat, l.drop_first(), r)
    } else {
        seq![r[0]] + merge_spec((n - 1) as nat, l, r.drop_first())
    }
}

/// Given two sorted lists, returns the first `n` elements of their union.
pub fn merge_sorted<T: TotalOrder>(n: usize, l: &[T], r: &[T]) -> (v: Vec<T>)
    ensures
        v@ == merge_spec(n as nat, l@, r@),
        sorted(l@) && sorted(r@) ==> is_k_smallest(v@, n as nat, l@ + r@),
{
    let mut v: Vec<T> = Vec::with_capacity(n);
    let mut i: usize = 0;
    let mut j: usize = 0;
    proof {
        assert(l@.skip(0) =~= l@);
        assert(r@.skip(0) =~= r@);
        lemma_order_facts::<T>();
    }
    while v.len() < n && (i < l.len() || j < r.len())
        invariant
            i <= l.len(),
            j <= r.len(),
            v.len() == i + j,
            v.len() <= n,
            v@ + merge_spec((n - v.len()) as nat, l@.skip(i as int), r@.skip(j as int))
                == merge_spec(n as nat, l@, r@),
            sorted(l@) && sorted(r@) ==> {
                &&& sorted(v@)
                &&& forall|x: int|
                    0 <= x < v.len() ==> count_lt(l@ + r@, #[trigger] v@[x]) <= x < count_leq(
                        l@ + r@,
                        v@[x],
                    )
                &&& (i > 0 && j < r.len()) ==> l@[i - 1].leq(r@[j as int])
                &&& (j > 0 && i < l.len()) ==> r@[j - 1].leq(l@[i as int])
                &&& v.len() > 0 && i < l.len() ==> v@[v.len() - 1].leq(l@[i as int])
                &&& v.len() > 0 && j < r.len() ==> v@[v.len() - 1].leq(r@[j as int])
            },
        decreases n - v.len(),
    {
        let ghost rest_l = l@.skip(i as int);
        let ghost rest_r = r@.skip(j as int);
        let ghost m = (n - v.len()) as nat;
        let ghost old_v = v@;
        // Take from the left on ties, or when the right is exhausted.
        let take_left = if i < l.len() && j < r.len() {
            l[i].compare_leq(&r[j])
        } else {
            i < l.len()
        };
        proof {
            if i < l.len() {
                assert(rest_l[0] == l@[i as int]);
                assert(rest_l.drop_first() =~= l@.skip(i + 1));
            }
            if j < r.len() {
                assert(rest_r[0] == r@[j as int]);
                assert(rest_r.drop_first() =~= r@.skip(j + 1));
            }
            if sorted(l@) && sorted(r@) {
                if i < l.len() && j < r.len() && !take_left {
                    T::lemma_total(l@[i as int], r@[j as int]);
                }
                lemma_merge_step(l@, r@, i as int, j as int, old_v, take_left);
            }
        }
        if take_left {
            v.push(l[i]);
            i += 1;
        } else {
            v.push(r[j]);
            j += 1;
        }
        proof {
            assert(v@ + merge_spec((n - v.len()) as nat, l@.skip(i as int), r@.skip(j as int))
                =~= old_v + merge_spec(m, rest_l, rest_r));
            if sorted(l@) && sorted(r@) {
                lemma_push_sorted(old_v, v@[v.len() - 1]);
                assert(old_v.push(v@[v.len() - 1]) =~= v@);
            }
        }
    }
    proof {
        if v.len() < n {
            assert(l@.skip(i as int).len() == 0 && r@.skip(j as int).len() == 0);
            assert(v@ + merge_spec((n - v.len()) as nat, l@.skip(i as int), r@.skip(j as int))
                =~= v@);
        } else {
            assert(v@ + merge_spec((n - v.len()) as nat, l@.skip(i as int), r@.skip(j as int))
                =~= v@);
        }
    }
    proof {
        if sorted(l@) && sorted(r@) {
            lemma_merge_length(l@, r@, i as int, j as int, v@, n as nat);
        }
    }
    v
}

/// Appending an element no smaller than the last keeps a sequence sorted.
pub proof fn lemma_push_sorted<T: TotalOrder>(s: Seq<T>, x: T)
    requires
        sorted(s),
        s.len() > 0 ==> s.last().leq(x),
    ensures
        sorted(s.push(x)),
{
    let t = s.push(x);
    assert forall|i: int, j: int| 0 <= i <= j < t.len() implies #[trigger] t[i].leq(
        #[trigger] t[j],
    ) by {
        if j == s.len() {
            if i == j {
                T::lemma_reflexive(x);
            } else {
                assert(s[i].leq(s.last()));
                T::lemma_transitive(s[i], s.last(), x);
            }
        } else {
            assert(s[i].leq(s[j]));
        }
    }
}

/// One step of the merge keeps every output element at a position that a
/// sorted copy of `l + r` allows.
proof fn lemma_merge_step<T: TotalOrder>(
    l: Seq<T>,
    r: Seq<T>,
    i: int,
    j: int,
    v: Seq<T>,
    take_left: bool,
)
    requires
        sorted(l),
        sorted(r),
        0 <= i <= l.len(),
        0 <= j <= r.len(),
        v.len() == i + j,
        take_left ==> i < l.len() && (j < r.len() ==> l[i].leq(r[j])),
        !take_left ==> j < r.len() && (i < l.len() ==> precedes(r[j], l[i])),
        (i > 0 && j < r.len()) ==> l[i - 1].leq(r[j]),
        (j > 0 && i < l.len()) ==> r[j - 1].leq(l[i]),
        v.len() > 0 && i < l.len() ==> v[v.len() - 1].leq(l[i]),
        v.len() > 0 && j < r.len() ==> v[v.len() - 1].leq(r[j]),
    ensures
        ({
            let x = if take_left {
                l[i]
            } else {
                r[j]
            };
            &&& count_lt(l + r, x) <= v.len() < count_leq(l + r, x)
            &&& v.len() > 0 ==> v[v.len() - 1].leq(x)
            &&& take_left ==> (i + 1 < l.len() ==> x.leq(l[i + 1])) && (j < r.len() ==> x.leq(
                r[j],
            )) && ((i + 1 > 0 && j < r.len()) ==> l[i].leq(r[j])) && ((j > 0 && i + 1 < l.len())
                ==> r[j - 1].leq(l[i + 1]))
            &&& !take_left ==> (j + 1 < r.len() ==> x.leq(r[j + 1])) && (i < l.len() ==> x.leq(
                l[i],
            )) && ((j + 1 > 0 && i < l.len()) ==> r[j].leq(l[i])) && ((i > 0 && j + 1 < r.len())
                ==> l[i - 1].leq(r[j + 1]))
        }),
{
    lemma_order_facts::<T>();
    let x = if take_left {
        l[i]
    } else {
        r[j]
    };
    lemma_count_add(l, r, x);
    lemma_count_bounds(l, x);
    lemma_count_bounds(r, x);
    lemma_sorted_is_k_smallest(l, l.len());
    lemma_sorted_is_k_smallest(r, r.len());
    if take_left {
        // position of x in l
        assert(count_lt(l, l[i]) <= i < count_leq(l, l[i]));
        if j < r.len() {
            assert(count_lt(r, r[j]) <= j);
            lemma_count_monotonic(r, x, r[j]);
        }
        if j > 0 {
            assert(r[j - 1].leq(x));
            assert(j - 1 < count_leq(r, r[j - 1]));
            lemma_count_monotonic(r, r[j - 1], x);
        }
        if i + 1 < l.len() {
            assert(l[i].leq(l[i + 1]));
            if j > 0 {
                T::lemma_transitive(r[j - 1], l[i], l[i + 1]);
            }
        }
    } else {
        assert(count_lt(r, r[j]) <= j < count_leq(r, r[j]));
        if i < l.len() {
            assert(count_lt(l, l[i]) <= i);
            lemma_count_monotonic(l, x, l[i]);
        }
        if i > 0 {
            assert(l[i - 1].leq(x));
            assert(i - 1 < count_leq(l, l[i - 1]));
            lemma_count_monotonic(l, l[i - 1], x);
        }
        if j + 1 < r.len() {
            assert(r[j].leq(r[j + 1]));
            if i > 0 {
                T::lemma_transitive(l[i - 1], r[j], r[j + 1]);
            }
        }
    }
}

/// When the merge stops, it has produced `min(n, |l| + |r|)` elements.
proof fn lemma_merge_length<T: TotalOrder>(l: Seq<T>, r: Seq<T>, i: int, j: int, v: Seq<T>, n: nat)
    requires
        0 <= i <= l.len(),
        0 <= j <= r.len(),
        v.len() == i + j,
        v.len() <= n,
        v.len() == n || (i == l.len() && j == r.len()),
        sorted(v),
        forall|x: int|
            0 <= x < v.len() ==> count_lt(l + r, #[trigger] v[x]) <= x < count_leq(l + r, v[x]),
    ensures
        is_k_smallest(v, n, l + r),
{
}


/// The `k` smallest elements of `v[lo..hi]`, sorted.
fn smallest_sorted<T: TotalOrder>(k: usize, v: &[T], lo: usize, hi: usize) -> (r: Vec<T>)
    requires
        lo <= hi <= v.len(),
    ensures
        is_k_smallest(r@, k as nat, v@.subrange(lo as int, hi as int)),
    decreases hi - lo,
{
    if hi - lo == 0 {
        Vec::new()
    } else if hi - lo == 1 {
        let mut r: Vec<T> = Vec::new();
        if k > 0 {
            r.push(v[lo]);
        }
        proof {
            assert(v@.subrange(lo as int, hi as int) =~= seq![v@[lo as int]]);
            if k > 0 {
                assert(r@ =~= seq![v@[lo as int]]);
                T::lemma_reflexive(v@[lo as int]);
                lemma_sorted_is_k_smallest(r@, k as nat);
            }
        }
        r
    } else {
        let mid = lo + (hi - lo) / 2;
        let a = smallest_sorted(k, v, lo, mid);
        let b = smallest_sorted(k, v, mid, hi);
        let m = merge_sorted(k, a.as_slice(), b.as_slice());
        proof {
            lemma_k_smallest_of_parts(
                m@,
                a@,
                b@,
                k as nat,
                v@.subrange(lo as int, mid as int),
                v@.subrange(mid as int, hi as int),
            );
            assert(v@.subrange(lo as int, mid as int) + v@.subrange(mid as int, hi as int)
                =~= v@.subrange(lo as int, hi as int));
        }
        m
    }
}

/// Same length and equivalent elements at every position.
fn same_values<T: TotalOrder>(a: &Vec<T>, b: &Vec<T>) -> (r: bool)
    ensures
        r == seq_equivalent(a@, b@),
{
    if a.len() != b.len() {
        return false;
    }
    let mut i: usize = 0;
    while i < a.len()
        invariant
            a.len() == b.len(),
            i <= a.len(),
            forall|j: int| 0 <= j < i ==> #[trigger] equivalent(a@[j], b@[j]),
        decreases a.len() - i,
    {
        if !(a[i].compare_leq(&b[i]) && b[i].compare_leq(&a[i])) {
            assert(!equivalent(a@[i as int], b@[i as int]));
            return false;
        }
        i += 1;
    }
    true
}

/// Every node but the root is linked to its sibling and to its parent.
#[derive(Clone, Copy)]
struct Family {
    sibling: usize,
    parent: usize,
}

struct Node<T> {
    family: Option<Family>,
    value: Vec<T>,
}

impl<T> Node<T> {
    fn new(k: usize) -> (r: Self)
        ensures
            r.family is None,
            r.value@ == Seq::<T>::empty(),
    {
        Self { family: None, value: Vec::with_capacity(k) }
    }
}

/// The concatenation of a list of lists.
pub open spec fn concat_all<T>(s: Seq<Seq<T>>) -> Seq<T>
    decreases s.len(),
{
    if s.len() == 0 {
        Seq::empty()
    } else {
        concat_all(s.drop_last()) + s.last()
    }
}

/// The values under node `x`: the values given to a leaf, or the union of the
/// values under the two children of an inner node.
spec fn pool_under<T>(nb: int, kids: Seq<(int, int)>, inputs: Seq<Seq<T>>, x: int) -> Seq<T>
    decreases x,
{
    if 0 <= x < nb {
        inputs[x]
    } else if nb <= x < nb + kids.len() && 0 <= kids[x - nb].0 < x && 0 <= kids[x - nb].1 < x {
        pool_under(nb, kids, inputs, kids[x - nb].0) + pool_under(nb, kids, inputs, kids[x - nb].1)
    } else {
        Seq::empty()
    }
}

/// The values under the nodes of a queue, in queue order.
spec fn pools_of<T>(nb: int, kids: Seq<(int, int)>, inputs: Seq<Seq<T>>, q: Seq<usize>) -> Seq<T>
    decreases q.len(),
{
    if q.len() == 0 {
        Seq::empty()
    } else {
        pools_of(nb, kids, inputs, q.drop_last()) + pool_under(nb, kids, inputs, q.last() as int)
    }
}

/// The node covers every leaf exactly once: whatever the leaves hold, its pool
/// and the union of the leaves agree on every count.
spec fn covers_all<T: TotalOrder>(nb: int, kids: Seq<(int, int)>, x: int) -> bool {
    forall|inputs: Seq<Seq<T>>|
        inputs.len() == nb ==> #[trigger] same_counts(
            pool_under(nb, kids, inputs, x),
            concat_all(inputs),
        )
}

/// The queue's nodes together cover every leaf exactly once.
spec fn queue_covers_all<T: TotalOrder>(nb: int, kids: Seq<(int, int)>, q: Seq<usize>) -> bool {
    forall|inputs: Seq<Seq<T>>|
        inputs.len() == nb ==> #[trigger] same_counts(
            pools_of(nb, kids, inputs, q),
            concat_all(inputs),
        )
}

spec fn child_link_ok<T>(nb: int, kids: Seq<(int, int)>, nodes: Seq<Node<T>>, p: int) -> bool {
    let (a, b) = kids[p - nb];
    &&& 0 <= a < p
    &&& 0 <= b < p
    &&& a != b
    &&& nodes[a].family == Some(Family { sibling: b as usize, parent: p as usize })
    &&& nodes[b].family == Some(Family { sibling: a as usize, parent: p as usize })
}

spec fn parent_link_ok<T>(nb: int, kids: Seq<(int, int)>, nodes: Seq<Node<T>>, c: int) -> bool {
    match nodes[c].family {
        None => true,
        Some(f) => {
            &&& nb <= f.parent < nodes.len()
            &&& c < f.parent
            &&& f.sibling < nodes.len()
            &&& (kids[f.parent - nb] == (c, f.sibling as int) || kids[f.parent - nb] == (
                f.sibling as int,
                c,
            ))
        },
    }
}

/// A leaf holds the `k` smallest of its values; an inner node the `k` smallest
/// of its children's.
spec fn node_ok_in<T: TotalOrder>(
    k: nat,
    nb: int,
    kids: Seq<(int, int)>,
    inputs: Seq<Seq<T>>,
    nodes: Seq<Node<T>>,
    x: int,
) -> bool {
    if x < nb {
        is_k_smallest(nodes[x].value@, k, inputs[x])
    } else {
        let (a, b) = kids[x - nb];
        is_k_smallest(nodes[x].value@, k, nodes[a].value@ + nodes[b].value@)
    }
}

spec fn shape_ok<T>(nb: int, kids: Seq<(int, int)>, nodes: Seq<Node<T>>) -> bool {
    &&& nodes.len() == nb + kids.len()
    &&& forall|p: int| nb <= p < nodes.len() ==> #[trigger] child_link_ok(nb, kids, nodes, p)
    &&& forall|c: int| 0 <= c < nodes.len() ==> #[trigger] parent_link_ok(nb, kids, nodes, c)
}

proof fn lemma_pool_stable<T>(nb: int, kids: Seq<(int, int)>, e: (int, int), inputs: Seq<Seq<T>>, x: int)
    requires
        0 <= nb,
        0 <= x < nb + kids.len(),
    ensures
        pool_under(nb, kids.push(e), inputs, x) == pool_under(nb, kids, inputs, x),
    decreases x,
{
    let k2 = kids.push(e);
    if nb <= x {
        assert(k2[x - nb] == kids[x - nb]);
        if 0 <= kids[x - nb].0 < x && 0 <= kids[x - nb].1 < x {
            lemma_pool_stable(nb, kids, e, inputs, kids[x - nb].0);
            lemma_pool_stable(nb, kids, e, inputs, kids[x - nb].1);
        }
    }
}

proof fn lemma_pools_stable<T>(nb: int, kids: Seq<(int, int)>, e: (int, int), inputs: Seq<Seq<T>>, q: Seq<usize>)
    requires
        0 <= nb,
        forall|i: int| 0 <= i < q.len() ==> #[trigger] q[i] < nb + kids.len(),
    ensures
        pools_of(nb, kids.push(e), inputs, q) == pools_of(nb, kids, inputs, q),
    decreases q.len(),
{
    if q.len() > 0 {
        lemma_pools_stable(nb, kids, e, inputs, q.drop_last());
        lemma_pool_stable(nb, kids, e, inputs, q.last() as int);
    }
}

/// Taking the first node off a queue splits off its pool at the front.
proof fn lemma_pools_front<T>(nb: int, kids: Seq<(int, int)>, inputs: Seq<Seq<T>>, q: Seq<usize>)
    requires
        q.len() > 0,
    ensures
        pools_of(nb, kids, inputs, q) =~= pool_under(nb, kids, inputs, q[0] as int) + pools_of(
            nb,
            kids,
            inputs,
            q.drop_first(),
        ),
    decreases q.len(),
{
    if q.len() == 1 {
        assert(q.drop_last() =~= Seq::<usize>::empty());
        assert(q.drop_first() =~= Seq::<usize>::empty());
    } else {
        lemma_pools_front(nb, kids, inputs, q.drop_last());
        assert(q.drop_last().drop_first() =~= q.drop_first().drop_last());
    }
}

/// Initially the queue holds the leaves in order, whose pools are the inputs.
proof fn lemma_pools_leaves<T>(nb: int, inputs: Seq<Seq<T>>, m: int)
    requires
        0 <= m <= nb <= usize::MAX,
        inputs.len() == nb,
    ensures
        pools_of(nb, Seq::empty(), inputs, Seq::new(m as nat, |i: int| i as usize)) == concat_all(
            inputs.take(m),
        ),
    decreases m,
{
    let q = Seq::new(m as nat, |i: int| i as usize);
    if m > 0 {
        lemma_pools_leaves(nb, inputs, m - 1);
        assert(q.drop_last() =~= Seq::new((m - 1) as nat, |i: int| i as usize));
        assert(inputs.take(m).drop_last() =~= inputs.take(m - 1));
        assert(q.last() == (m - 1) as usize);
        assert(inputs.take(m).last() == inputs[m - 1]);
    } else {
        assert(inputs.take(0) =~= Seq::<Seq<T>>::empty());
    }
}

/// The nodes of the tree, with the ghost state that describes them.
struct Tree<T> {
    k: usize,
    nb_leaves: usize,
    nodes: Vec<Node<T>>,
    /// The two children of each inner node; inner node `nb_leaves + i` at index `i`.
    kids: Ghost<Seq<(int, int)>>,
    /// The values last given to each leaf.
    inputs: Ghost<Seq<Seq<T>>>,
}

impl<T: TotalOrder> Tree<T> {
    /// How many of the smallest values are tracked.
    spec fn k(&self) -> nat {
        self.k as nat
    }

    /// The values last given to each leaf, unsorted and untruncated.
    spec fn leaves(&self) -> Seq<Seq<T>> {
        self.inputs@
    }

    /// The tracked smallest values, as the root holds them.
    spec fn smallest(&self) -> Seq<T> {
        if self.nodes.len() == 0 {
            Seq::empty()
        } else {
            self.nodes@.last().value@
        }
    }

    spec fn node_ok(&self, x: int) -> bool {
        node_ok_in(self.k as nat, self.nb_leaves as int, self.kids@, self.inputs@, self.nodes@, x)
    }

    /// The tree links every node to its parent, the root covers every leaf once,
    /// each leaf holds the `k` smallest of its values, and each inner node the
    /// `k` smallest of its children's.
    spec fn wf(&self) -> bool {
        &&& shape_ok(self.nb_leaves as int, self.kids@, self.nodes@)
        &&& self.inputs@.len() == self.nb_leaves
        &&& self.nb_leaves == 0 ==> self.nodes.len() == 0
        &&& self.nb_leaves > 0 ==> {
            &&& self.nodes@.last().family is None
            &&& covers_all::<T>(self.nb_leaves as int, self.kids@, self.nodes.len() - 1)
        }
        &&& forall|c: int| 0 <= c < self.nodes.len() - 1 ==> (#[trigger] self.nodes@[c]).family is Some
        &&& forall|x: int| 0 <= x < self.nodes.len() ==> #[trigger] self.node_ok(x)
    }

    proof fn lemma_node_pool(&self, x: int)
        requires
            shape_ok(self.nb_leaves as int, self.kids@, self.nodes@),
            forall|y: int| 0 <= y < self.nodes.len() ==> #[trigger] self.node_ok(y),
            0 <= x < self.nodes.len(),
        ensures
            is_k_smallest(
                self.nodes@[x].value@,
                self.k as nat,
                pool_under(self.nb_leaves as int, self.kids@, self.inputs@, x),
            ),
        decreases x,
    {
        assert(self.node_ok(x));
        if x >= self.nb_leaves {
            assert(child_link_ok(self.nb_leaves as int, self.kids@, self.nodes@, x));
            let (a, b) = self.kids@[x - self.nb_leaves];
            self.lemma_node_pool(a);
            self.lemma_node_pool(b);
            lemma_k_smallest_of_parts(
                self.nodes@[x].value@,
                self.nodes@[a].value@,
                self.nodes@[b].value@,
                self.k as nat,
                pool_under(self.nb_leaves as int, self.kids@, self.inputs@, a),
                pool_under(self.nb_leaves as int, self.kids@, self.inputs@, b),
            );
        }
    }

    /// The tracked values are always the `k` smallest of all values given to the
    /// leaves.
    proof fn lemma_smallest_of_leaves(&self)
        requires
            self.wf(),
        ensures
            is_k_smallest(self.smallest(), self.k(), concat_all(self.leaves())),
    {
        if self.nb_leaves == 0 {
            assert(self.inputs@ =~= Seq::<Seq<T>>::empty());
            assert(concat_all(self.inputs@) =~= Seq::<T>::empty());
        } else {
            let root = self.nodes.len() - 1;
            self.lemma_node_pool(root);
            assert(same_counts(
                pool_under(self.nb_leaves as int, self.kids@, self.inputs@, root),
                concat_all(self.inputs@),
            ));
            lemma_same_counts_k_smallest(
                self.smallest(),
                self.k(),
                pool_under(self.nb_leaves as int, self.kids@, self.inputs@, root),
                concat_all(self.inputs@),
            );
        }
    }

    fn new(k: usize, nb_leaves: usize) -> (t: Self)
        ensures
            t.wf(),
            t.k() == k,
            t.leaves() == Seq::new(nb_leaves as nat, |i: int| Seq::<T>::empty()),
            t.smallest() == Seq::<T>::empty(),
    {
        // Fill level 0 nodes with leaves
        let mut nodes: Vec<Node<T>> = Vec::new();
        let mut i: usize = 0;
        while i < nb_leaves
            invariant
                i <= nb_leaves,
                nodes.len() == i,
                forall|c: int| 0 <= c < i ==> (#[trigger] nodes@[c]).family is None,
                forall|c: int| 0 <= c < i ==> (#[trigger] nodes@[c]).value@ == Seq::<T>::empty(),
            decreases nb_leaves - i,
        {
            nodes.push(Node::new(k));
            i += 1;
        }
        // Indexes of nodes without parents
        let mut orphans: VecDeque<usize> = VecDeque::new();
        let mut i: usize = 0;
        while i < nb_leaves
            invariant
                i <= nb_leaves,
                orphans@ =~= Seq::new(i as nat, |j: int| j as usize),
            decreases nb_leaves - i,
        {
            orphans.push_back(i);
            i += 1;
        }
        let ghost nb = nb_leaves as int;
        let ghost mut kids: Seq<(int, int)> = Seq::empty();
        proof {
            assert forall|c: int| 0 <= c < nodes.len() implies ((#[trigger] nodes@[c]).family
                is None <==> orphans@.contains(c as usize)) by {
                assert(orphans@[c] == c as usize);
            }
            assert forall|inputs: Seq<Seq<T>>| inputs.len() == nb implies #[trigger] same_counts(
                pools_of(nb, kids, inputs, orphans@),
                concat_all(inputs),
            ) by {
                lemma_pools_leaves(nb, inputs, nb);
                assert(inputs.take(nb) =~= inputs);
            }
        }
        // Assign a parent to each pair of orphans, and place the parent into orphan queue.
        // Keep going until there is only one orphan left - the root node,
        // Or zero orphans - only possible if nb_leaves == 0.
        while orphans.len() >= 2
            invariant
                nodes.len() == nb + kids.len(),
                orphans@.len() + kids.len() == nb,
                nb > 0 ==> orphans@.len() >= 1,
                orphans@.len() >= 1 ==> orphans@.last() == nodes.len() - 1,
                orphans@.no_duplicates(),
                forall|i: int| 0 <= i < orphans@.len() ==> #[trigger] orphans@[i] < nodes.len(),
                forall|c: int|
                    0 <= c < nodes.len() ==> ((#[trigger] nodes@[c]).family is None
                        <==> orphans@.contains(c as usize)),
                forall|c: int| 0 <= c < nodes.len() ==> (#[trigger] nodes@[c]).value@ == Seq::<T>::empty(),
                shape_ok(nb, kids, nodes@),
                queue_covers_all::<T>(nb, kids, orphans@),
            decreases orphans.len(),
        {
            let ghost q0 = orphans@;
            let ghost nodes0 = nodes@;
            let l = orphans.pop_front().unwrap();
            let r = orphans.pop_front().unwrap();
            // Create parent node
            let parent = nodes.len();
            nodes.push(Node::new(k));
            orphans.push_back(parent);
            // Link these adjacent orphans into a family
            nodes[l].family = Some(Family { sibling: r, parent });
            nodes[r].family = Some(Family { sibling: l, parent });
            proof {
                let kids0 = kids;
                let e = (l as int, r as int);
                kids = kids.push(e);
                let rest = q0.subrange(2, q0.len() as int);
                assert(orphans@ =~= rest.push(parent));
                assert(q0[0] == l && q0[1] == r);
                assert(l != r);
                assert(q0.contains(l) && q0.contains(r));
                assert(q0.drop_first() =~= seq![r] + rest);
                assert((seq![r] + rest).drop_first() =~= rest);
                assert(orphans@.drop_last() =~= rest);
                // shape
                assert forall|p: int| nb <= p < nodes.len() implies #[trigger] child_link_ok(
                    nb,
                    kids,
                    nodes@,
                    p,
                ) by {
                    if p < parent {
                        assert(child_link_ok(nb, kids0, nodes0, p));
                        assert(kids[p - nb] == kids0[p - nb]);
                        let (a, b) = kids0[p - nb];
                        assert(nodes0[a].family is Some);
                        assert(nodes0[b].family is Some);
                        assert(!q0.contains(a as usize));
                        assert(!q0.contains(b as usize));
                    }
                }
                assert forall|c: int| 0 <= c < nodes.len() implies #[trigger] parent_link_ok(
                    nb,
                    kids,
                    nodes@,
                    c,
                ) by {
                    if c < parent && c != l && c != r {
                        assert(parent_link_ok(nb, kids0, nodes0, c));
                        if let Some(f) = nodes0[c].family {
                            assert(kids[f.parent - nb] == kids0[f.parent - nb]);
                        }
                    }
                }
                assert forall|c: int| 0 <= c < nodes.len() implies ((#[trigger] nodes@[c]).family
                    is None <==> orphans@.contains(c as usize)) by {
                    if c == parent {
                        assert(orphans@.last() == parent);
                    } else if c == l || c == r {
                        if orphans@.contains(c as usize) {
                            let j = choose|j: int| 0 <= j < orphans@.len() && orphans@[j] == c as usize;
                            if j < rest.len() {
                                assert(q0[j + 2] == c);
                            }
                        }
                    } else {
                        assert(nodes0[c].family == nodes@[c].family);
                        if q0.contains(c as usize) {
                            let j = choose|j: int| 0 <= j < q0.len() && q0[j] == c as usize;
                            assert(j >= 2);
                            assert(orphans@[j - 2] == c);
                        }
                        if orphans@.contains(c as usize) {
                            let j = choose|j: int| 0 <= j < orphans@.len() && orphans@[j] == c as usize;
                            assert(j < rest.len());
                            assert(q0[j + 2] == c);
                        }
                    }
                }
                assert(orphans@.no_duplicates()) by {
                    assert forall|i: int, j: int|
                        0 <= i < orphans@.len() && 0 <= j < orphans@.len() && i != j implies orphans@[i]
                        != orphans@[j] by {
                        if i < rest.len() && j < rest.len() {
                            assert(q0[i + 2] != q0[j + 2]);
                        }
                    }
                }
                // coverage
                assert forall|inputs: Seq<Seq<T>>| inputs.len() == nb implies #[trigger] same_counts(
                    pools_of(nb, kids, inputs, orphans@),
                    concat_all(inputs),
                ) by {
                    assert(same_counts(pools_of(nb, kids0, inputs, q0), concat_all(inputs)));
                    lemma_pools_stable(nb, kids0, e, inputs, q0);
                    lemma_pools_stable(nb, kids0, e, inputs, rest);
                    lemma_pools_front(nb, kids, inputs, q0);
                    lemma_pools_front(nb, kids, inputs, q0.drop_first());
                    let pl = pool_under(nb, kids, inputs, l as int);
                    let pr = pool_under(nb, kids, inputs, r as int);
                    let pq = pools_of(nb, kids, inputs, rest);
                    assert(pool_under(nb, kids, inputs, parent as int) == pl + pr);
                    assert(pools_of(nb, kids, inputs, orphans@) == pq + (pl + pr));
                    assert(pools_of(nb, kids, inputs, q0) =~= pl + (pr + pq));
                    lemma_same_counts_rotate(pl, pr, pq);
                    lemma_same_counts_transitive(
                        pools_of(nb, kids, inputs, orphans@),
                        pools_of(nb, kids, inputs, q0),
                        concat_all(inputs),
                    );
                }
            }
        }
        let ghost inputs = Seq::new(nb_leaves as nat, |i: int| Seq::<T>::empty());
        let t = Self { k, nb_leaves, nodes, kids: Ghost(kids), inputs: Ghost(inputs) };
        proof {
            if nb > 0 {
                let root = orphans@[0];
                assert(orphans@ =~= seq![root]);
                assert(orphans@.drop_last() =~= Seq::<usize>::empty());
                assert forall|inp: Seq<Seq<T>>| inp.len() == nb implies #[trigger] same_counts(
                    pool_under(nb, kids, inp, root as int),
                    concat_all(inp),
                ) by {
                    assert(pools_of(nb, kids, inp, orphans@.drop_last()) =~= Seq::<T>::empty());
                    assert(pools_of(nb, kids, inp, orphans@) =~= pool_under(nb, kids, inp, root as int));
                }
                assert forall|c: int| 0 <= c < t.nodes.len() - 1 implies (#[trigger] t.nodes@[c]).family is Some by {
                    if t.nodes@[c].family is None {
                        assert(orphans@.contains(c as usize));
                        assert(orphans@[0] == c);
                    }
                }
            }
            assert forall|x: int| 0 <= x < t.nodes.len() implies #[trigger] t.node_ok(x) by {
                if x >= nb {
                    assert(child_link_ok(nb, kids, t.nodes@, x));
                    let (a, b) = kids[x - nb];
                    assert(t.nodes@[a].value@ + t.nodes@[b].value@ =~= Seq::<T>::empty());
                }
            }
            t.lemma_smallest_of_leaves();
        }
        t
    }

    /// Sets a leaf and propagates the change up the tree; returns whether the
    /// root changed.
    #[verifier::loop_isolation(false)]
    fn update_leaf(&mut self, index: usize, value: Vec<T>) -> (changed: bool)
        requires
            old(self).wf(),
            index < old(self).leaves().len(),
        ensures
            final(self).wf(),
            final(self).k() == old(self).k(),
            final(self).leaves() == old(self).leaves().update(index as int, value@),
            is_k_smallest(final(self).smallest(), final(self).k(), concat_all(final(self).leaves())),
            !changed <==> seq_equivalent(final(self).smallest(), old(self).smallest()),
            !changed ==> final(self).smallest() == old(self).smallest(),
            final(self).nodes.len() > 0,
    {
        let ghost old_nodes = self.nodes@;
        let ghost nb = self.nb_leaves as int;
        let ghost kids = self.kids@;
        let mut index = index;
        let ghost given = value@;
        let ghost new_inputs = self.inputs@.update(index as int, value@);
        let mut value = smallest_sorted(self.k, value.as_slice(), 0, value.len());
        self.inputs = Ghost(new_inputs);
        proof {
            assert(given.subrange(0, given.len() as int) =~= given);
            assert forall|x: int| 0 <= x < self.nodes.len() && x != index implies #[trigger] node_ok_in(
                self.k as nat,
                nb,
                kids,
                new_inputs,
                self.nodes@,
                x,
            ) by {
                assert(old(self).node_ok(x));
            }
        }
        // Propagate the changed value up the tree
        loop
            invariant
                shape_ok(nb, kids, self.nodes@),
                self.kids@ == kids,
                self.nb_leaves == nb,
                self.inputs@ == new_inputs,
                self.inputs@.len() == nb,
                self.k == old(self).k,
                self.nodes.len() == old_nodes.len(),
                0 <= index < self.nodes.len(),
                forall|c: int| 0 <= c < self.nodes.len() ==> (#[trigger] self.nodes@[c]).family == old_nodes[c].family,
                forall|x: int| index <= x < self.nodes.len() ==> (#[trigger] self.nodes@[x]).value == old_nodes[x].value,
                forall|x: int|
                    0 <= x < self.nodes.len() && x != index ==> #[trigger] node_ok_in(
                        self.k as nat,
                        nb,
                        kids,
                        new_inputs,
                        self.nodes@,
                        x,
                    ),
                index < nb ==> is_k_smallest(value@, self.k as nat, new_inputs[index as int]),
                index >= nb ==> is_k_smallest(
                    value@,
                    self.k as nat,
                    self.nodes@[kids[index - nb].0].value@ + self.nodes@[kids[index - nb].1].value@,
                ),
                old(self).wf(),
                kids == old(self).kids@,
                nb == old(self).nb_leaves,
                old_nodes == old(self).nodes@,
            decreases self.nodes.len() - index,
        {
            if same_values(&self.nodes[index].value, &value) {
                // Value did not change, so we can stop
                proof {
                    assert(seq_equivalent(value@, self.nodes@[index as int].value@)) by {
                        assert forall|i: int| 0 <= i < value@.len() implies #[trigger] equivalent(
                            value@[i],
                            self.nodes@[index as int].value@[i],
                        ) by {
                            assert(equivalent(self.nodes@[index as int].value@[i], value@[i]));
                        }
                    }
                    lemma_equivalent_k_smallest(
                        value@,
                        self.nodes@[index as int].value@,
                        self.k as nat,
                        if index < nb {
                            new_inputs[index as int]
                        } else {
                            self.nodes@[kids[index - nb].0].value@ + self.nodes@[kids[index - nb].1].value@
                        },
                    );
                    assert(self.node_ok(index as int));
                    assert forall|x: int| 0 <= x < self.nodes.len() implies #[trigger] self.node_ok(x) by {
                        if x != index {
                            assert(node_ok_in(self.k as nat, nb, kids, new_inputs, self.nodes@, x));
                        }
                    }
                    self.lemma_wf_after_update(old(self));
                    self.lemma_smallest_of_leaves();
                    lemma_seq_equivalent_refl(self.smallest());
                }
                return false;
            } else {
                // Update current node's value
                let ghost before = self.nodes@;
                self.nodes[index].value = value;
                proof {
                    if index >= nb {
                        assert(child_link_ok(nb, kids, before, index as int));
                    }
                    lemma_shape_families(nb, kids, before, self.nodes@);
                    assert(self.node_ok(index as int));
                    assert forall|x: int|
                        0 <= x < self.nodes.len() && x != index && (x < nb || (kids[x - nb].0 != index
                            && kids[x - nb].1 != index)) implies #[trigger] self.node_ok(x) by {
                        assert(node_ok_in(self.k as nat, nb, kids, new_inputs, before, x));
                        if x >= nb {
                            assert(child_link_ok(nb, kids, before, x));
                        }
                    }
                }
                if let Some(Family { sibling, parent }) = self.nodes[index].family {
                    // Derive what parent's value should be
                    proof {
                        assert(parent_link_ok(nb, kids, self.nodes@, index as int));
                        assert(child_link_ok(nb, kids, self.nodes@, parent as int));
                        if sibling >= nb {
                            assert(child_link_ok(nb, kids, self.nodes@, sibling as int));
                        }
                        assert(self.node_ok(sibling as int));
                        assert(self.node_ok(index as int));
                    }
                    value = merge_sorted(
                        self.k,
                        self.nodes[index].value.as_slice(),
                        self.nodes[sibling].value.as_slice(),
                    );
                    proof {
                        let vi = self.nodes@[index as int].value@;
                        let vs = self.nodes@[sibling as int].value@;
                        if kids[parent - nb] != (index as int, sibling as int) {
                            lemma_same_counts_commute(vi, vs);
                            lemma_same_counts_k_smallest(value@, self.k as nat, vi + vs, vs + vi);
                        }
                        assert forall|x: int| 0 <= x < self.nodes.len() && x != parent implies #[trigger] node_ok_in(
                            self.k as nat,
                            nb,
                            kids,
                            new_inputs,
                            self.nodes@,
                            x,
                        ) by {
                            assert(self.node_ok(x) == node_ok_in(self.k as nat, nb, kids, new_inputs, self.nodes@, x));
                            if x != index {
                                assert(before[x].value == self.nodes@[x].value);
                                if x >= nb {
                                    assert(child_link_ok(nb, kids, self.nodes@, x));
                                    let (a, b) = kids[x - nb];
                                    if a == index {
                                        assert(self.nodes@[a].family == Some(Family { sibling: b as usize, parent: x as usize }));
                                    }
                                    if b == index {
                                        assert(self.nodes@[b].family == Some(Family { sibling: a as usize, parent: x as usize }));
                                    }
                                }
                            }
                        }
                    }
                    // Move to parent node
                    index = parent;
                } else {
                    // We just changed root's value, meaning some of the first n elements have changed,
                    // so we return the new values.
                    proof {
                        assert(index == self.nodes.len() - 1) by {
                            if index < self.nodes.len() - 1 {
                                assert(old(self).nodes@[index as int].family is Some);
                            }
                        }
                        assert forall|x: int| 0 <= x < self.nodes.len() implies #[trigger] self.node_ok(x) by {
                            if x != index && x >= nb {
                                assert(child_link_ok(nb, kids, self.nodes@, x));
                            }
                        }
                        self.lemma_wf_after_update(old(self));
                        self.lemma_smallest_of_leaves();
                        if seq_equivalent(self.smallest(), old(self).smallest()) {
                            assert(seq_equivalent(before[index as int].value@, self.nodes@[index as int].value@)) by {
                                assert forall|i: int| 0 <= i < before[index as int].value@.len() implies #[trigger] equivalent(
                                    before[index as int].value@[i],
                                    self.nodes@[index as int].value@[i],
                                ) by {
                                    assert(equivalent(self.nodes@[index as int].value@[i], before[index as int].value@[i]));
                                }
                            }
                        }
                    }
                    return true;
                }
            }
        }
    }

    /// Once every node holds its local invariant again, the tree is well formed.
    proof fn lemma_wf_after_update(&self, old_tree: &Self)
        requires
            old_tree.wf(),
            shape_ok(self.nb_leaves as int, self.kids@, self.nodes@),
            self.kids@ == old_tree.kids@,
            self.nb_leaves == old_tree.nb_leaves,
            self.nodes.len() == old_tree.nodes.len(),
            self.inputs@.len() == self.nb_leaves,
            forall|c: int| 0 <= c < self.nodes.len() ==> (#[trigger] self.nodes@[c]).family == old_tree.nodes@[c].family,
            forall|x: int| 0 <= x < self.nodes.len() ==> #[trigger] self.node_ok(x),
        ensures
            self.wf(),
    {
        assert forall|c: int| 0 <= c < self.nodes.len() - 1 implies (#[trigger] self.nodes@[c]).family is Some by {
            assert(old_tree.nodes@[c].family is Some);
        }
    }
}

proof fn lemma_shape_families<T>(nb: int, kids: Seq<(int, int)>, n1: Seq<Node<T>>, n2: Seq<Node<T>>)
    requires
        shape_ok(nb, kids, n1),
        n1.len() == n2.len(),
        forall|c: int| 0 <= c < n1.len() ==> (#[trigger] n1[c]).family == n2[c].family,
    ensures
        shape_ok(nb, kids, n2),
{
    assert forall|p: int| nb <= p < n2.len() implies #[trigger] child_link_ok(nb, kids, n2, p) by {
        assert(child_link_ok(nb, kids, n1, p));
        let (a, b) = kids[p - nb];
        assert(n1[a].family == n2[a].family);
        assert(n1[b].family == n2[b].family);
    }
    assert forall|c: int| 0 <= c < n2.len() implies #[trigger] parent_link_ok(nb, kids, n2, c) by {
        assert(parent_link_ok(nb, kids, n1, c));
        assert(n1[c].family == n2[c].family);
    }
}

proof fn lemma_seq_equivalent_refl<T: TotalOrder>(s: Seq<T>)
    ensures
        seq_equivalent(s, s),
{
    assert forall|i: int| 0 <= i < s.len() implies #[trigger] equivalent(s[i], s[i]) by {
        T::lemma_reflexive(s[i]);
    }
}

/// A tree that tracks the `k` smallest values of the union of its leaves.
pub struct KMinTree<T: TotalOrder> {
    tree: Tree<T>,
}

impl<T: TotalOrder> KMinTree<T> {
    #[verifier::type_invariant]
    spec fn inv(self) -> bool {
        self.tree.wf()
    }

    /// How many of the smallest values are tracked.
    pub closed spec fn k(&self) -> nat {
        self.tree.k()
    }

    /// The values last given to each leaf, unsorted and untruncated.
    pub closed spec fn leaves(&self) -> Seq<Seq<T>> {
        self.tree.leaves()
    }

    /// The tracked smallest values.
    pub closed spec fn smallest(&self) -> Seq<T> {
        self.tree.smallest()
    }

    /// What the tree tracks depends only on the multiset of all the values
    /// given to its leaves: neither the order of a leaf's values (they need not
    /// be sorted) nor which leaf holds them matters, up to equivalence. So an
    /// update that gives a leaf the values it already holds reports no change.
    pub proof fn lemma_same_values_same_smallest(a: &Self, b: &Self)
        requires
            is_k_smallest(a.smallest(), a.k(), concat_all(a.leaves())),
            is_k_smallest(b.smallest(), b.k(), concat_all(b.leaves())),
            a.k() == b.k(),
            concat_all(a.leaves()).to_multiset() == concat_all(b.leaves()).to_multiset(),
        ensures
            seq_equivalent(a.smallest(), b.smallest()),
    {
        lemma_permutation_same_counts(concat_all(a.leaves()), concat_all(b.leaves()));
        lemma_same_counts_k_smallest(
            a.smallest(),
            a.k(),
            concat_all(a.leaves()),
            concat_all(b.leaves()),
        );
        lemma_k_smallest_unique(a.smallest(), b.smallest(), a.k(), concat_all(b.leaves()));
    }

    /// Construct a new tree to track the min k values of the union of its leaves.
    pub fn new(k: usize, nb_leaves: usize) -> (t: Self)
        ensures
            t.k() == k,
            t.leaves() == Seq::new(nb_leaves as nat, |i: int| Seq::<T>::empty()),
            t.smallest() == Seq::<T>::empty(),
            is_k_smallest(t.smallest(), t.k(), concat_all(t.leaves())),
    {
        let tree = Tree::new(k, nb_leaves);
        proof {
            tree.lemma_smallest_of_leaves();
        }
        KMinTree { tree }
    }

    pub fn nb_leaves(&self) -> (n: usize)
        ensures
            n == self.leaves().len(),
            is_k_smallest(self.smallest(), self.k(), concat_all(self.leaves())),
    {
        proof {
            use_type_invariant(self);
            self.tree.lemma_smallest_of_leaves();
        }
        self.tree.nb_leaves
    }

    /// The tracked smallest values: the `k` smallest of all values given to
    /// the leaves, sorted.
    pub fn get(&self) -> (r: &[T])
        ensures
            r@ == self.smallest(),
            is_k_smallest(self.smallest(), self.k(), concat_all(self.leaves())),
    {
        proof {
            use_type_invariant(self);
            self.tree.lemma_smallest_of_leaves();
        }
        if self.tree.nodes.len() == 0 {
            &[]
        } else {
            self.tree.nodes[self.tree.nodes.len() - 1].value.as_slice()
        }
    }

    /// Set leaf to the new value, and return the new min k elements, if they have changed.
    /// Value does not have to be sorted.
    /// Runs in O(k*log(min(k, nb_leaves))) average time.
    pub fn update_leaf(&mut self, index: usize, value: Vec<T>) -> (r: Option<&Vec<T>>)
        requires
            index < old(self).leaves().len(),
        ensures
            final(self).k() == old(self).k(),
            final(self).leaves() == old(self).leaves().update(index as int, value@),
            is_k_smallest(final(self).smallest(), final(self).k(), concat_all(final(self).leaves())),
            r is None <==> seq_equivalent(final(self).smallest(), old(self).smallest()),
            r is None ==> final(self).smallest() == old(self).smallest(),
            r matches Some(v) ==> v@ == final(self).smallest(),
    {
        proof {
            use_type_invariant(&*self);
        }
        let mut tree = Tree::new(self.tree.k, 0);
        std::mem::swap(&mut tree, &mut self.tree);
        let changed = tree.update_leaf(index, value);
        proof {
            tree.lemma_smallest_of_leaves();
        }
        self.tree = tree;
        if changed {
            Some(&self.tree.nodes[self.tree.nodes.len() - 1].value)
        } else {
            None
        }
    }
}

} // verus!
