//! The arena chain: nodes addressed by slot, the predicate that says their
//! links spell out a sequence of slots, and the lemmas that keep it through
//! insertion, unlinking and the relocation of a slot.

use vstd::prelude::*;
use vstd::seq_lib::seq_to_set_is_finite;
use vstd::set_lib::*;

verus! {

/// One cell of the list: an element and the arena slots of its neighbours.
pub(crate) struct Node<T> {
    pub(crate) next: Option<usize>,
    pub(crate) prev: Option<usize>,
    pub(crate) element: T,
}

impl<T> Node<T> {
    /// A node holding `element`, with no neighbours.
    pub(crate) fn new(element: T) -> (n: Node<T>)
        ensures
            n.next is None,
            n.prev is None,
            n.element == element,
    {
        Node { next: None, prev: None, element }
    }

    /// The element, the node given up.
    pub(crate) fn into_element(self) -> (e: T)
        ensures
            e == self.element,
    {
        self.element
    }
}

/// The slot at position `i` of `order`, or `None` past either end.
pub(crate) open spec fn link_to(order: Seq<usize>, i: int) -> Option<usize> {
    if 0 <= i < order.len() {
        Some(order[i])
    } else {
        None
    }
}

/// `head`, `tail` and the links of `nodes` spell out exactly the chain `order`.
#[verifier::opaque]
pub(crate) open spec fn linked<T>(nodes: Seq<Node<T>>, head: Option<usize>, tail: Option<usize>, order: Seq<usize>) -> bool {
    &&& head == link_to(order, 0)
    &&& tail == link_to(order, order.len() - 1)
    &&& forall|i: int|
        0 <= i < order.len() ==> {
            &&& 0 <= #[trigger] order[i] < nodes.len()
            &&& nodes[order[i] as int].prev == link_to(order, i - 1)
            &&& nodes[order[i] as int].next == link_to(order, i + 1)
        }
}

/// No slot appears twice in `order`.
#[verifier::opaque]
pub(crate) open spec fn distinct(order: Seq<usize>) -> bool {
    forall|i: int, j: int| 0 <= i < order.len() && 0 <= j < order.len() && i != j ==> order[i] != order[j]
}

/// The elements held in the slots of `order`, in that order.
pub(crate) open spec fn elements<T>(nodes: Seq<Node<T>>, order: Seq<usize>) -> Seq<T> {
    Seq::new(order.len(), |i: int| nodes[order[i] as int].element)
}

/// `order` with slot `m` renamed to `k`.
pub(crate) open spec fn relabel(order: Seq<usize>, m: usize, k: usize) -> Seq<usize> {
    order.map_values(|x: usize| if x == m { k } else { x })
}

/// Points the forward link of slot `q` at `v`.
pub(crate) fn set_next<T>(nodes: &mut Vec<Node<T>>, q: usize, v: Option<usize>)
    requires
        q < old(nodes)@.len(),
    ensures
        final(nodes)@ == old(nodes)@.update(q as int, Node { next: v, ..old(nodes)@[q as int] }),
{
    nodes[q].next = v;
}

/// Points the backward link of slot `q` at `v`.
pub(crate) fn set_prev<T>(nodes: &mut Vec<Node<T>>, q: usize, v: Option<usize>)
    requires
        q < old(nodes)@.len(),
    ensures
        final(nodes)@ == old(nodes)@.update(q as int, Node { prev: v, ..old(nodes)@[q as int] }),
{
    nodes[q].prev = v;
}

/// What `linked` says of position `i`.
pub(crate) proof fn lemma_linked_at<T>(n: Seq<Node<T>>, h: Option<usize>, t: Option<usize>, o: Seq<usize>, i: int)
    requires
        linked(n, h, t, o),
        0 <= i < o.len(),
    ensures
        o[i] < n.len(),
        n[o[i] as int].prev == link_to(o, i - 1),
        n[o[i] as int].next == link_to(o, i + 1),
{
    reveal(linked);
}

/// What `linked` says of the ends, and that every slot of the chain is in the arena.
pub(crate) proof fn lemma_linked_ends<T>(n: Seq<Node<T>>, h: Option<usize>, t: Option<usize>, o: Seq<usize>)
    requires
        linked(n, h, t, o),
    ensures
        h == link_to(o, 0),
        t == link_to(o, o.len() - 1),
        forall|i: int| 0 <= i < o.len() ==> #[trigger] o[i] < n.len(),
{
    reveal(linked);
    assert forall|i: int| 0 <= i < o.len() implies #[trigger] o[i] < n.len() by {
        lemma_linked_at(n, h, t, o, i);
    }
}

/// Two positions of a `distinct` chain hold two slots.
pub(crate) proof fn lemma_distinct_at(o: Seq<usize>, i: int, j: int)
    requires
        distinct(o),
        0 <= i < o.len(),
        0 <= j < o.len(),
        i != j,
    ensures
        o[i] != o[j],
{
    reveal(distinct);
}

/// The chain facts, position by position, make `linked`.
pub(crate) proof fn lemma_make_linked<T>(n: Seq<Node<T>>, h: Option<usize>, t: Option<usize>, o: Seq<usize>)
    requires
        h == link_to(o, 0),
        t == link_to(o, o.len() - 1),
        forall|i: int|
            0 <= i < o.len() ==> {
                &&& #[trigger] o[i] < n.len()
                &&& n[o[i] as int].prev == link_to(o, i - 1)
                &&& n[o[i] as int].next == link_to(o, i + 1)
            },
    ensures
        linked(n, h, t, o),
{
    reveal(linked);
}

/// Only the links matter to `linked`, not the elements.
pub(crate) proof fn lemma_linked_same_links<T>(n: Seq<Node<T>>, h: Option<usize>, t: Option<usize>, o: Seq<usize>, n2: Seq<Node<T>>)
    requires
        linked(n, h, t, o),
        n2.len() == n.len(),
        forall|s: int| 0 <= s < n.len() ==> (#[trigger] n2[s]).prev == n[s].prev && n2[s].next == n[s].next,
    ensures
        linked(n2, h, t, o),
{
    reveal(linked);
}

/// In a compact arena every slot belongs to the chain.
pub(crate) proof fn lemma_slot_in_chain(o: Seq<usize>, s: usize) -> (i: int)
    requires
        distinct(o),
        forall|i: int| 0 <= i < o.len() ==> #[trigger] o[i] < o.len(),
        s < o.len(),
    ensures
        0 <= i < o.len(),
        o[i] == s,
{
    broadcast use seq_to_set_is_finite;
    let ints = o.map_values(|x: usize| x as int);
    let range = set_int_range(0, o.len() as int);
    assert(ints.no_duplicates()) by {
        reveal(distinct);
    }
    ints.unique_seq_to_set();
    lemma_int_range(0, o.len() as int);
    assert(ints.to_set().subset_of(range)) by {
        assert forall|x: int| ints.to_set().contains(x) implies range.contains(x) by {
            let i = choose|i: int| 0 <= i < ints.len() && ints[i] == x;
            assert(o[i] < o.len());
        }
    }
    lemma_subset_equality(ints.to_set(), range);
    assert(range.contains(s as int));
    assert(ints.to_set().contains(s as int));
    let i = choose|i: int| 0 <= i < ints.len() && ints[i] == s as int;
    i
}

/// Pointing the neighbours of position `p` at a new slot `k` links it in there.
pub(crate) proof fn lemma_insert_linked<T>(
    n0: Seq<Node<T>>,
    h0: Option<usize>,
    t0: Option<usize>,
    o: Seq<usize>,
    p: int,
    k: usize,
    n1: Seq<Node<T>>,
    h1: Option<usize>,
    t1: Option<usize>,
)
    requires
        linked(n0, h0, t0, o),
        distinct(o),
        o.len() == n0.len(),
        k == n0.len(),
        n1.len() == k + 1,
        0 <= p <= o.len(),
        n1[k as int].prev == link_to(o, p - 1),
        n1[k as int].next == link_to(o, p),
        forall|s: int|
            0 <= s < k && (p == 0 || s != o[p - 1]) && (p == o.len() || s != o[p]) ==> {
                &&& (#[trigger] n1[s]).prev == n0[s].prev
                &&& n1[s].next == n0[s].next
            },
        p > 0 ==> n1[o[p - 1] as int].next == Some(k) && n1[o[p - 1] as int].prev == n0[o[p - 1] as int].prev,
        p < o.len() ==> n1[o[p] as int].prev == Some(k) && n1[o[p] as int].next == n0[o[p] as int].next,
        h1 == (if p == 0 { Some(k) } else { h0 }),
        t1 == (if p == o.len() { Some(k) } else { t0 }),
    ensures
        linked(n1, h1, t1, o.insert(p, k)),
        distinct(o.insert(p, k)),
{
    let o1 = o.insert(p, k);
    lemma_linked_ends(n0, h0, t0, o);
    assert forall|i: int| 0 <= i < o1.len() implies {
        &&& #[trigger] o1[i] < n1.len()
        &&& n1[o1[i] as int].prev == link_to(o1, i - 1)
        &&& n1[o1[i] as int].next == link_to(o1, i + 1)
    } by {
        if i < p {
            lemma_linked_at(n0, h0, t0, o, i);
            assert(o1[i] == o[i]);
            if i > 0 {
                assert(o1[i - 1] == o[i - 1]);
            }
            if i < p - 1 {
                assert(o1[i + 1] == o[i + 1]);
                lemma_distinct_at(o, i, p - 1);
                if p < o.len() {
                    lemma_distinct_at(o, i, p);
                }
            } else {
                assert(o1[i + 1] == k);
            }
        } else if i == p {
            assert(o1[i] == k);
            if i > 0 {
                assert(o1[i - 1] == o[i - 1]);
            }
            if i < o.len() {
                assert(o1[i + 1] == o[i]);
            }
        } else {
            let j = i - 1;
            lemma_linked_at(n0, h0, t0, o, j);
            assert(o1[i] == o[j]);
            if j + 1 < o.len() {
                assert(o1[i + 1] == o[j + 1]);
            }
            if j == p {
                assert(o1[i - 1] == k);
            } else {
                assert(o1[i - 1] == o[j - 1]);
                lemma_distinct_at(o, j, p);
                if p > 0 {
                    lemma_distinct_at(o, j, p - 1);
                }
            }
        }
    }
    if o.len() > 0 {
        if p > 0 {
            assert(o1[0] == o[0]);
        }
        if p < o.len() {
            assert(o1[o1.len() - 1] == o[o.len() - 1]);
        }
    }
    reveal(linked);
    assert forall|i: int| 0 <= i < o.len() implies #[trigger] o[i] < k by {
        lemma_linked_at(n0, h0, t0, o, i);
    }
    lemma_insert_distinct(o, p, k);
}

/// A fresh slot keeps the chain free of repeats.
pub(crate) proof fn lemma_insert_distinct(o: Seq<usize>, p: int, k: usize)
    requires
        distinct(o),
        0 <= p <= o.len(),
        forall|i: int| 0 <= i < o.len() ==> #[trigger] o[i] < k,
    ensures
        distinct(o.insert(p, k)),
{
    reveal(distinct);
    let o1 = o.insert(p, k);
    assert forall|i: int, j: int| 0 <= i < o1.len() && 0 <= j < o1.len() && i != j implies o1[i] != o1[j] by {
        if i != p && j != p {
            let a = if i < p { i } else { i - 1 };
            let b = if j < p { j } else { j - 1 };
            assert(o1[i] == o[a]);
            assert(o1[j] == o[b]);
        } else if i == p {
            let b = if j < p { j } else { j - 1 };
            assert(o1[j] == o[b]);
            assert(o[b] < k);
        } else {
            let a = if i < p { i } else { i - 1 };
            assert(o1[i] == o[a]);
            assert(o[a] < k);
        }
    }
}

/// Linking in a new slot inserts its element at its position.
pub(crate) proof fn lemma_insert_elements<T>(n0: Seq<Node<T>>, o: Seq<usize>, p: int, k: usize, n1: Seq<Node<T>>, e: T)
    requires
        forall|i: int| 0 <= i < o.len() ==> 0 <= #[trigger] o[i] < k,
        k == n0.len(),
        n1.len() == k + 1,
        0 <= p <= o.len(),
        n1[k as int].element == e,
        forall|s: int| 0 <= s < k ==> (#[trigger] n1[s]).element == n0[s].element,
    ensures
        elements(n1, o.insert(p, k)) == elements(n0, o).insert(p, e),
{
    let o1 = o.insert(p, k);
    assert forall|i: int| 0 <= i < o1.len() implies #[trigger] elements(n1, o1)[i] == elements(n0, o).insert(p, e)[i] by {
        if i < p {
            assert(o1[i] == o[i]);
        } else if i > p {
            assert(o1[i] == o[i - 1]);
        }
    }
    assert(elements(n1, o1) =~= elements(n0, o).insert(p, e));
}

/// Unlinking the node at position `p` leaves the chain without it.
pub(crate) proof fn lemma_unlink<T>(
    n0: Seq<Node<T>>,
    h0: Option<usize>,
    t0: Option<usize>,
    o: Seq<usize>,
    p: int,
    n1: Seq<Node<T>>,
    h1: Option<usize>,
    t1: Option<usize>,
)
    requires
        linked(n0, h0, t0, o),
        distinct(o),
        o.len() == n0.len(),
        0 <= p < o.len(),
        n1.len() == n0.len(),
        forall|s: int|
            0 <= s < n0.len() && (p == 0 || s != o[p - 1]) && (p + 1 >= o.len() || s != o[p + 1])
                ==> #[trigger] n1[s] == n0[s],
        p > 0 ==> {
            &&& n1[o[p - 1] as int].next == link_to(o, p + 1)
            &&& n1[o[p - 1] as int].prev == n0[o[p - 1] as int].prev
            &&& n1[o[p - 1] as int].element == n0[o[p - 1] as int].element
        },
        p + 1 < o.len() ==> {
            &&& n1[o[p + 1] as int].prev == link_to(o, p - 1)
            &&& n1[o[p + 1] as int].next == n0[o[p + 1] as int].next
            &&& n1[o[p + 1] as int].element == n0[o[p + 1] as int].element
        },
        h1 == (if p == 0 { link_to(o, 1) } else { h0 }),
        t1 == (if p == o.len() - 1 { link_to(o, p - 1) } else { t0 }),
    ensures
        linked(n1, h1, t1, o.remove(p)),
        distinct(o.remove(p)),
        forall|i: int| 0 <= i < o.len() - 1 ==> #[trigger] o.remove(p)[i] != o[p],
        elements(n1, o.remove(p)) == elements(n0, o).remove(p),
{
    let r = o.remove(p);
    lemma_linked_ends(n0, h0, t0, o);
    assert forall|i: int| 0 <= i < r.len() implies {
        &&& #[trigger] r[i] < n1.len()
        &&& n1[r[i] as int].prev == link_to(r, i - 1)
        &&& n1[r[i] as int].next == link_to(r, i + 1)
        &&& n1[r[i] as int].element == n0[r[i] as int].element
        &&& r[i] != o[p]
    } by {
        let j = if i < p { i } else { i + 1 };
        assert(r[i] == o[j]);
        lemma_linked_at(n0, h0, t0, o, j);
        lemma_distinct_at(o, j, p);
        if i > 0 {
            assert(r[i - 1] == if i - 1 < p { o[i - 1] } else { o[i] });
        }
        if i + 1 < r.len() {
            assert(r[i + 1] == if i + 1 < p { o[i + 1] } else { o[i + 2] });
        }
        if p > 0 && j != p - 1 {
            lemma_distinct_at(o, j, p - 1);
        }
        if p + 1 < o.len() && j != p + 1 {
            lemma_distinct_at(o, j, p + 1);
        }
    }
    if r.len() > 0 {
        assert(r[0] == if p == 0 { o[1] } else { o[0] });
        assert(r[r.len() - 1] == if p == o.len() - 1 { o[p - 1] } else { o[o.len() - 1] });
    }
    lemma_remove_distinct(o, p);
    assert(elements(n1, r) =~= elements(n0, o).remove(p)) by {
        assert forall|i: int| 0 <= i < r.len() implies #[trigger] elements(n1, r)[i] == elements(n0, o).remove(p)[i] by {
            let j = if i < p { i } else { i + 1 };
            assert(r[i] == o[j]);
        }
    }
    lemma_make_linked(n1, h1, t1, r);
}

/// Taking a slot out keeps the chain free of repeats.
pub(crate) proof fn lemma_remove_distinct(o: Seq<usize>, p: int)
    requires
        distinct(o),
        0 <= p < o.len(),
    ensures
        distinct(o.remove(p)),
{
    reveal(distinct);
    let r = o.remove(p);
    assert forall|a: int, b: int| 0 <= a < r.len() && 0 <= b < r.len() && a != b implies r[a] != r[b] by {
        let x = if a < p { a } else { a + 1 };
        let y = if b < p { b } else { b + 1 };
        assert(r[a] == o[x]);
        assert(r[b] == o[y]);
    }
}

/// Moving the node of the last slot `m` into the free slot `k`, with its
/// neighbours pointed at `k`, keeps the chain with `m` renamed to `k`.
pub(crate) proof fn lemma_relocate<T>(
    n1: Seq<Node<T>>,
    h1: Option<usize>,
    t1: Option<usize>,
    r: Seq<usize>,
    k: usize,
    m: usize,
    j: int,
    n2: Seq<Node<T>>,
    h2: Option<usize>,
    t2: Option<usize>,
    n3: Seq<Node<T>>,
)
    requires
        linked(n1, h1, t1, r),
        distinct(r),
        r.len() == m,
        n1.len() == m + 1,
        k <= m,
        forall|i: int| 0 <= i < r.len() ==> #[trigger] r[i] != k,
        m == k ==> n2 == n1 && h2 == h1 && t2 == t1,
        m != k ==> {
            &&& 0 <= j < r.len()
            &&& r[j] == m
            &&& n2.len() == n1.len()
            &&& forall|s: int|
                0 <= s < n1.len() && (j == 0 || s != r[j - 1]) && (j + 1 >= r.len() || s != r[j + 1])
                    ==> #[trigger] n2[s] == n1[s]
            &&& j > 0 ==> {
                &&& n2[r[j - 1] as int].next == Some(k)
                &&& n2[r[j - 1] as int].prev == n1[r[j - 1] as int].prev
                &&& n2[r[j - 1] as int].element == n1[r[j - 1] as int].element
            }
            &&& j + 1 < r.len() ==> {
                &&& n2[r[j + 1] as int].prev == Some(k)
                &&& n2[r[j + 1] as int].next == n1[r[j + 1] as int].next
                &&& n2[r[j + 1] as int].element == n1[r[j + 1] as int].element
            }
            &&& h2 == (if j == 0 { Some(k) } else { h1 })
            &&& t2 == (if j + 1 == r.len() { Some(k) } else { t1 })
        },
        n3 == n2.update(k as int, n2.last()).drop_last(),
    ensures
        linked(n3, h2, t2, relabel(r, m, k)),
        distinct(relabel(r, m, k)),
        elements(n3, relabel(r, m, k)) == elements(n1, r),
{
    let r2 = relabel(r, m, k);
    lemma_linked_ends(n1, h1, t1, r);
    assert forall|i: int| 0 <= i < r2.len() implies {
        &&& #[trigger] r2[i] < n3.len()
        &&& n3[r2[i] as int].prev == link_to(r2, i - 1)
        &&& n3[r2[i] as int].next == link_to(r2, i + 1)
        &&& n3[r2[i] as int].element == n1[r[i] as int].element
    } by {
        lemma_relocate_at(n1, h1, t1, r, k, m, j, n2, h2, t2, n3, i);
    }
    if r.len() > 0 {
        let last = r.len() - 1;
        if m != k {
            if j != 0 {
                lemma_distinct_at(r, 0, j);
            }
            if j != last {
                lemma_distinct_at(r, last, j);
            }
        }
        assert(r2[0] == if r[0] == m { k } else { r[0] });
        assert(r2[last] == if r[last] == m { k } else { r[last] });
    }
    assert(h2 == link_to(r2, 0));
    assert(t2 == link_to(r2, r2.len() - 1));
    lemma_make_linked(n3, h2, t2, r2);
    lemma_relabel_distinct(r, m, k);
    assert(elements(n3, r2) =~= elements(n1, r));
}

/// Position `i` after the relocation that `lemma_relocate` describes.
pub(crate) proof fn lemma_relocate_at<T>(
    n1: Seq<Node<T>>,
    h1: Option<usize>,
    t1: Option<usize>,
    r: Seq<usize>,
    k: usize,
    m: usize,
    j: int,
    n2: Seq<Node<T>>,
    h2: Option<usize>,
    t2: Option<usize>,
    n3: Seq<Node<T>>,
    i: int,
)
    requires
        linked(n1, h1, t1, r),
        distinct(r),
        r.len() == m,
        n1.len() == m + 1,
        k <= m,
        forall|i: int| 0 <= i < r.len() ==> #[trigger] r[i] != k,
        m == k ==> n2 == n1 && h2 == h1 && t2 == t1,
        m != k ==> {
            &&& 0 <= j < r.len()
            &&& r[j] == m
            &&& n2.len() == n1.len()
            &&& forall|s: int|
                0 <= s < n1.len() && (j == 0 || s != r[j - 1]) && (j + 1 >= r.len() || s != r[j + 1])
                    ==> #[trigger] n2[s] == n1[s]
            &&& j > 0 ==> {
                &&& n2[r[j - 1] as int].next == Some(k)
                &&& n2[r[j - 1] as int].prev == n1[r[j - 1] as int].prev
                &&& n2[r[j - 1] as int].element == n1[r[j - 1] as int].element
            }
            &&& j + 1 < r.len() ==> {
                &&& n2[r[j + 1] as int].prev == Some(k)
                &&& n2[r[j + 1] as int].next == n1[r[j + 1] as int].next
                &&& n2[r[j + 1] as int].element == n1[r[j + 1] as int].element
            }
            &&& h2 == (if j == 0 { Some(k) } else { h1 })
            &&& t2 == (if j + 1 == r.len() { Some(k) } else { t1 })
        },
        n3 == n2.update(k as int, n2.last()).drop_last(),
        0 <= i < r.len(),
    ensures
        ({
            let r2 = relabel(r, m, k);
            &&& r2[i] < n3.len()
            &&& n3[r2[i] as int].prev == link_to(r2, i - 1)
            &&& n3[r2[i] as int].next == link_to(r2, i + 1)
            &&& n3[r2[i] as int].element == n1[r[i] as int].element
        }),
{
    let r2 = relabel(r, m, k);
    lemma_linked_at(n1, h1, t1, r, i);
    if i > 0 {
        assert(r2[i - 1] == if r[i - 1] == m { k } else { r[i - 1] });
    }
    if i + 1 < r2.len() {
        assert(r2[i + 1] == if r[i + 1] == m { k } else { r[i + 1] });
    }
    if m != k {
        if i != j {
            lemma_distinct_at(r, i, j);
        }
        if i - 1 >= 0 && i - 1 != j {
            lemma_distinct_at(r, i - 1, j);
        }
        if i + 1 < r.len() && i + 1 != j {
            lemma_distinct_at(r, i + 1, j);
        }
        if j > 0 && i != j - 1 {
            lemma_distinct_at(r, i, j - 1);
        }
        if j + 1 < r.len() && i != j + 1 {
            lemma_distinct_at(r, i, j + 1);
        }
        if j > 0 && j + 1 < r.len() {
            lemma_distinct_at(r, j - 1, j + 1);
        }
    }
}

/// Renaming a slot to one the chain does not use keeps it free of repeats.
pub(crate) proof fn lemma_relabel_distinct(r: Seq<usize>, m: usize, k: usize)
    requires
        distinct(r),
        forall|i: int| 0 <= i < r.len() ==> #[trigger] r[i] != k,
    ensures
        distinct(relabel(r, m, k)),
{
    reveal(distinct);
}

/// Writing the element of the slot at position `p` writes position `p` of
/// the elements, and no other.
pub(crate) proof fn lemma_elements_update<T>(n: Seq<Node<T>>, o: Seq<usize>, p: int, x: T)
    requires
        distinct(o),
        0 <= p < o.len(),
        forall|i: int| 0 <= i < o.len() ==> #[trigger] o[i] < n.len(),
    ensures
        elements(n.update(o[p] as int, Node { element: x, ..n[o[p] as int] }), o) == elements(n, o).update(p, x),
{
    let n2 = n.update(o[p] as int, Node { element: x, ..n[o[p] as int] });
    assert forall|i: int| 0 <= i < o.len() implies #[trigger] elements(n2, o)[i] == elements(n, o).update(p, x)[i] by {
        if i != p {
            lemma_distinct_at(o, i, p);
        }
    }
    assert(elements(n2, o) =~= elements(n, o).update(p, x));
}

} // verus!
