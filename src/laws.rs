use vstd::prelude::*;

use crate::position::{element_at, next_index, prev_index, split_before_index, spliced};

verus! {

/// The cursor position after `k` steps forward from the ghost slot of a list
/// of `len` elements.
pub open spec fn walk_next(len: nat, k: nat) -> nat
    decreases k,
{
    if k == 0 {
        0
    } else {
        next_index(walk_next(len, (k - 1) as nat), len)
    }
}

/// The cursor position after `k` steps backward from the ghost slot.
pub open spec fn walk_prev(len: nat, k: nat) -> nat
    decreases k,
{
    if k == 0 {
        0
    } else {
        prev_index(walk_prev(len, (k - 1) as nat), len)
    }
}

/// What is left of `s` after `k` pops from the ghost slot.
pub open spec fn after_pops<T>(s: Seq<T>, k: nat) -> Seq<T>
    decreases k,
{
    if k == 0 {
        s
    } else {
        after_pops(s, (k - 1) as nat).remove(0)
    }
}

/// Walking forward from the ghost slot shows the elements in order, and
/// walking backward shows them in reverse order; after `len + 1` steps either
/// way the cursor is back at the ghost slot.
pub proof fn lemma_walk_visits_in_order<T>(s: Seq<T>, k: nat)
    requires
        k <= s.len() + 1,
    ensures
        1 <= k <= s.len() ==> element_at(s, walk_next(s.len(), k)) == Some(s[k - 1]),
        1 <= k <= s.len() ==> element_at(s, walk_prev(s.len(), k)) == Some(s[s.len() - k]),
        k == s.len() + 1 ==> walk_next(s.len(), k) == 0 && walk_prev(s.len(), k) == 0,
{
    lemma_walk_positions(s.len(), k);
}

proof fn lemma_walk_positions(len: nat, k: nat)
    requires
        k <= len + 1,
    ensures
        k <= len ==> walk_next(len, k) == k,
        1 <= k <= len + 1 ==> walk_prev(len, k) == len + 1 - k,
        k == len + 1 ==> walk_next(len, k) == 0,
    decreases k,
{
    if k > 0 {
        lemma_walk_positions(len, (k - 1) as nat);
        assert(walk_prev(len, 0) == 0);
        assert(walk_prev(len, k) == prev_index(walk_prev(len, (k - 1) as nat), len));
    }
}

/// One step forward and one step back, in either order, return the cursor
/// to where it was.
pub proof fn lemma_step_there_and_back(index: nat, len: nat)
    requires
        index <= len,
    ensures
        prev_index(next_index(index, len), len) == index,
        next_index(prev_index(index, len), len) == index,
{
}

/// Splitting at a cursor and splicing the returned part back in after the
/// cursor, at the cut, gives the list back.
pub proof fn lemma_split_then_splice<T>(s: Seq<T>, index: nat)
    requires
        index <= s.len(),
    ensures
        spliced(s.take(index as int), index as int, s.skip(index as int)) == s,
{
    assert(spliced(s.take(index as int), index as int, s.skip(index as int)) =~= s);
}

/// `split_before` from the ghost slot or from the head returns the whole list
/// and keeps nothing.
pub proof fn lemma_split_before_at_start<T>(s: Seq<T>, index: nat)
    requires
        index <= 1,
    ensures
        s.take(split_before_index(index) as int) == Seq::<T>::empty(),
        s.skip(split_before_index(index) as int) == s,
{
    assert(s.take(0) =~= Seq::<T>::empty());
    assert(s.skip(0) =~= s);
}

/// Splicing in an empty list, before or after any position, changes nothing.
pub proof fn lemma_splice_empty<T>(s: Seq<T>, at: int)
    requires
        0 <= at <= s.len(),
    ensures
        spliced(s, at, Seq::<T>::empty()) == s,
{
    assert(spliced(s, at, Seq::<T>::empty()) =~= s);
}

/// Popping from the ghost slot returns the elements front to back: the `k`-th
/// pop returns `s[k - 1]`, and after `len` pops the list is empty.
pub proof fn lemma_pops_in_order<T>(s: Seq<T>, k: nat)
    requires
        k <= s.len(),
    ensures
        after_pops(s, k) == s.skip(k as int),
        k >= 1 ==> after_pops(s, (k - 1) as nat)[0] == s[k - 1],
        k == s.len() ==> after_pops(s, k).len() == 0,
    decreases k,
{
    if k > 0 {
        lemma_pops_in_order(s, (k - 1) as nat);
        assert(s.skip(k - 1).remove(0) =~= s.skip(k as int));
    } else {
        assert(s.skip(0) =~= s);
    }
}

} // verus!
