//! Cursor positions and the sequence operations that the cursors' contracts
//! are stated with.

use vstd::prelude::*;

verus! {

/// The cursor position after one step forward, among the `len + 1`
/// positions: `0` is the ghost slot, `i + 1` the element at index `i`.
pub open spec fn next_index(index: nat, len: nat) -> nat {
    if index >= len {
        0
    } else {
        index + 1
    }
}

/// The cursor position after one step backward.
pub open spec fn prev_index(index: nat, len: nat) -> nat {
    if index == 0 {
        len
    } else {
        (index - 1) as nat
    }
}

/// A step forward is a step of the offset modulo `len + 1`.
pub(crate) proof fn lemma_next_index(index: nat, len: nat)
    requires
        index <= len,
    ensures
        next_index(index, len) == (index + 1) % (len + 1),
{
    if index == len {
        vstd::arithmetic::div_mod::lemma_mod_self_0((len + 1) as int);
    } else {
        vstd::arithmetic::div_mod::lemma_small_mod(index + 1, len + 1);
    }
}

/// A step backward is a step of the offset modulo `len + 1`.
pub(crate) proof fn lemma_prev_index(index: nat, len: nat)
    requires
        index <= len,
    ensures
        prev_index(index, len) == (index + len) % (len + 1),
{
    if index == 0 {
        vstd::arithmetic::div_mod::lemma_small_mod(len, len + 1);
    } else {
        vstd::arithmetic::div_mod::lemma_mod_add_multiples_vanish((index - 1) as int, (len + 1) as int);
        vstd::arithmetic::div_mod::lemma_small_mod((index - 1) as nat, len + 1);
    }
}

/// How many elements `split_before` keeps, from cursor position `index`.
pub open spec fn split_before_index(index: nat) -> nat {
    if index == 0 {
        0
    } else {
        (index - 1) as nat
    }
}

/// `s` with `o` spliced in at index `at`.
pub open spec fn spliced<T>(s: Seq<T>, at: int, o: Seq<T>) -> Seq<T> {
    s.take(at) + o + s.skip(at)
}

/// The element seen at cursor position `index` of `s`: none at the ghost slot.
pub open spec fn element_at<T>(s: Seq<T>, index: nat) -> Option<T> {
    if 1 <= index <= s.len() {
        Some(s[index - 1])
    } else {
        None
    }
}

/// The value behind an optional reference.
pub open spec fn deref_opt<T>(o: Option<&T>) -> Option<T> {
    match o {
        Some(e) => Some(*e),
        None => None,
    }
}

} // verus!
