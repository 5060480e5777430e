//! A doubly-linked list whose nodes live in an arena owned by the list, with
//! read-only and read-write cursors that move, edit, split and splice it.

mod chain;
mod laws;
mod list;
mod position;

pub use list::{lemma_len_counts_reachable, lemma_links_symmetric, Cursor, CursorMut, LinkedList};
pub use position::{
    deref_opt, element_at, next_index, prev_index, split_before_index, spliced,
};
pub use laws::{
    after_pops, lemma_pops_in_order, lemma_splice_empty, lemma_split_before_at_start,
    lemma_split_then_splice, lemma_step_there_and_back, lemma_walk_visits_in_order, walk_next,
    walk_prev,
};
