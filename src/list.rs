use vstd::prelude::*;

use crate::chain::{
    distinct, elements, lemma_distinct_at, lemma_elements_update, lemma_insert_elements,
    lemma_insert_linked, lemma_linked_at, lemma_linked_ends, lemma_linked_same_links,
    lemma_relocate, lemma_slot_in_chain, lemma_unlink, link_to, linked, relabel, set_next,
    set_prev, Node,
};
use crate::position::{
    deref_opt, element_at, lemma_next_index, lemma_prev_index, next_index,
    prev_index, split_before_index, spliced,
};

verus! {

/// A doubly-linked list with owned nodes.
///
/// All nodes are held in one arena; links between nodes are arena slots, and
/// the arena holds no slot that is not part of the chain.
pub struct LinkedList<T> {
    nodes: Vec<Node<T>>,
    head: Option<usize>,
    tail: Option<usize>,
    len: usize,
    /// The arena slot of each element, in forward order.
    order: Ghost<Seq<usize>>,
}

impl<T> View for LinkedList<T> {
    type V = Seq<T>;

    closed spec fn view(&self) -> Seq<T> {
        elements(self.nodes@, self.order@)
    }
}

impl<T> LinkedList<T> {
    /// The list is well formed: the chain from `head` to `tail` visits every
    /// arena slot exactly once, with symmetric links, and `len` counts it.
    pub closed spec fn wf(&self) -> bool {
        &&& self.len == self.nodes@.len()
        &&& self.order@.len() == self.len
        &&& distinct(self.order@)
        &&& linked(self.nodes@, self.head, self.tail, self.order@)
    }

    /// An empty list.
    pub fn new() -> (l: LinkedList<T>)
        ensures
            l.wf(),
            l@ == Seq::<T>::empty(),
    {
        let l = LinkedList { nodes: Vec::new(), head: None, tail: None, len: 0, order: Ghost(Seq::empty()) };
        proof {
            reveal(linked);
            reveal(distinct);
        }
        assert(l@ =~= Seq::<T>::empty());
        l
    }

    /// The number of elements.
    pub fn len(&self) -> (n: usize)
        requires
            self.wf(),
        ensures
            n == self@.len(),
    {
        self.len
    }

    /// Inserts `element` at position `p`, right after the slot `prev_slot`
    /// (`None`: at the front). Slots already in use keep their elements.
    fn insert_at(&mut self, prev_slot: Option<usize>, Ghost(p): Ghost<int>, element: T) -> (k: usize)
        requires
            old(self).wf(),
            0 <= p <= old(self)@.len(),
            prev_slot == link_to(old(self).order@, p - 1),
        ensures
            final(self).wf(),
            k == old(self).len,
            final(self).order@ == old(self).order@.insert(p, k),
            final(self)@ == old(self)@.insert(p, element),
    {
        let ghost order = self.order@;
        let ghost n0 = self.nodes@;
        proof {
            lemma_linked_ends(self.nodes@, self.head, self.tail, order);
            if p > 0 {
                lemma_linked_at(self.nodes@, self.head, self.tail, order, p - 1);
            }
            if p < order.len() {
                lemma_linked_at(self.nodes@, self.head, self.tail, order, p);
            }
            if 0 < p < order.len() {
                lemma_distinct_at(order, p - 1, p);
            }
        }
        let next_slot = match prev_slot {
            None => self.head,
            Some(q) => self.nodes[q].next,
        };
        let k = self.nodes.len();
        let mut node = Node::new(element);
        node.prev = prev_slot;
        node.next = next_slot;
        self.nodes.push(node);
        match next_slot {
            None => self.tail = Some(k),
            Some(q) => set_prev(&mut self.nodes, q, Some(k)),
        }
        match prev_slot {
            None => self.head = Some(k),
            Some(q) => set_next(&mut self.nodes, q, Some(k)),
        }
        self.len = self.nodes.len();
        proof {
            lemma_insert_linked(n0, old(self).head, old(self).tail, order, p, k, self.nodes@, self.head, self.tail);
            lemma_insert_elements(n0, order, p, k, self.nodes@, element);
        }
        self.order = Ghost(order.insert(p, k));
        k
    }

    /// Removes the element at position `p`, held in slot `k`. The node in the
    /// last slot of the arena moves into slot `k`, so the arena stays compact.
    fn remove_at(&mut self, k: usize, Ghost(p): Ghost<int>) -> (e: T)
        requires
            old(self).wf(),
            0 <= p < old(self)@.len(),
            old(self).order@[p] == k,
        ensures
            final(self).wf(),
            e == old(self)@[p],
            final(self)@ == old(self)@.remove(p),
            final(self).len == old(self).len - 1,
            final(self).order@ == relabel(old(self).order@.remove(p), (old(self).len - 1) as usize, k),
    {
        let ghost o = self.order@;
        let ghost n0 = self.nodes@;
        proof {
            lemma_linked_ends(self.nodes@, self.head, self.tail, o);
            lemma_linked_at(self.nodes@, self.head, self.tail, o, p);
            if p > 0 {
                lemma_linked_at(self.nodes@, self.head, self.tail, o, p - 1);
                lemma_distinct_at(o, p - 1, p);
            }
            if p + 1 < o.len() {
                lemma_linked_at(self.nodes@, self.head, self.tail, o, p + 1);
                lemma_distinct_at(o, p + 1, p);
            }
            if 0 < p && p + 1 < o.len() {
                lemma_distinct_at(o, p - 1, p + 1);
            }
        }
        let prev = self.nodes[k].prev;
        let next = self.nodes[k].next;
        match prev {
            None => self.head = next,
            Some(q) => set_next(&mut self.nodes, q, next),
        }
        match next {
            None => self.tail = prev,
            Some(q) => set_prev(&mut self.nodes, q, prev),
        }
        let ghost r = o.remove(p);
        let ghost n1 = self.nodes@;
        let ghost h1 = self.head;
        let ghost t1 = self.tail;
        proof {
            lemma_unlink(n0, old(self).head, old(self).tail, o, p, n1, h1, t1);
        }
        let m = self.nodes.len() - 1;
        let ghost mut j: int = 0;
        if m != k {
            proof {
                let i = lemma_slot_in_chain(o, m);
                j = if i < p { i } else { i - 1 };
                assert(r[j] == m);
                lemma_linked_at(n1, h1, t1, r, j);
                if j > 0 {
                    lemma_linked_at(n1, h1, t1, r, j - 1);
                    lemma_distinct_at(r, j - 1, j);
                }
                if j + 1 < r.len() {
                    lemma_linked_at(n1, h1, t1, r, j + 1);
                    lemma_distinct_at(r, j + 1, j);
                }
                if 0 < j && j + 1 < r.len() {
                    lemma_distinct_at(r, j - 1, j + 1);
                }
            }
            let moved_prev = self.nodes[m].prev;
            let moved_next = self.nodes[m].next;
            match moved_prev {
                None => self.head = Some(k),
                Some(q) => set_next(&mut self.nodes, q, Some(k)),
            }
            match moved_next {
                None => self.tail = Some(k),
                Some(q) => set_prev(&mut self.nodes, q, Some(k)),
            }
        }
        let ghost n2 = self.nodes@;
        let node = self.nodes.swap_remove(k);
        self.len = self.nodes.len();
        proof {
            lemma_relocate(n1, h1, t1, r, k, m, j, n2, self.head, self.tail, self.nodes@);
        }
        self.order = Ghost(relabel(r, m, k));
        node.into_element()
    }

    /// Removes and returns the last element.
    fn pop_back(&mut self) -> (e: T)
        requires
            old(self).wf(),
            old(self)@.len() > 0,
        ensures
            final(self).wf(),
            e == old(self)@.last(),
            final(self)@ == old(self)@.drop_last(),
    {
        proof {
            lemma_linked_ends(self.nodes@, self.head, self.tail, self.order@);
        }
        let k = self.tail.unwrap();
        let e = self.remove_at(k, Ghost(self.len - 1));
        assert(self@ =~= old(self)@.drop_last());
        e
    }

    /// Moves every element of `other` in at position `p`, right after the slot
    /// `prev_slot`. Elements before position `p` keep their slots, and so do
    /// those after it, which move `other@.len()` positions on.
    fn splice_at(&mut self, prev_slot: Option<usize>, Ghost(p): Ghost<int>, other: LinkedList<T>)
        requires
            old(self).wf(),
            other.wf(),
            0 <= p <= old(self)@.len(),
            prev_slot == link_to(old(self).order@, p - 1),
        ensures
            final(self).wf(),
            final(self)@ == old(self)@.take(p) + other@ + old(self)@.skip(p),
            final(self).order@.len() == old(self).order@.len() + other@.len(),
            final(self).order@.take(p) == old(self).order@.take(p),
            final(self).order@.skip(p + other@.len()) == old(self).order@.skip(p),
            other@.len() == 0 ==> *final(self) == *old(self),
    {
        let mut other = other;
        let ghost rest = other@;
        while other.len > 0
            invariant
                self.wf(),
                old(self).wf(),
                other.wf(),
                0 <= p <= old(self)@.len(),
                prev_slot == link_to(old(self).order@, p - 1),
                other@.len() <= rest.len(),
                other@ == rest.take(other@.len() as int),
                self@ == old(self)@.take(p) + rest.skip(other@.len() as int) + old(self)@.skip(p),
                self.order@.len() == old(self).order@.len() + rest.len() - other@.len(),
                self.order@.take(p) == old(self).order@.take(p),
                self.order@.skip(p + rest.len() - other@.len()) == old(self).order@.skip(p),
                rest.len() == other@.len() ==> *self == *old(self),
            decreases other@.len(),
        {
            let ghost before = *self;
            let ghost taken = rest.len() - other@.len();
            let e = other.pop_back();
            proof {
                assert(prev_slot == link_to(self.order@, p - 1)) by {
                    if p > 0 {
                        assert(self.order@.take(p)[p - 1] == self.order@[p - 1]);
                        assert(old(self).order@.take(p)[p - 1] == old(self).order@[p - 1]);
                    }
                }
            }
            self.insert_at(prev_slot, Ghost(p), e);
            proof {
                let l = other@.len() as int;
                assert(rest.skip(l) =~= seq![e] + rest.skip(l + 1));
                assert(self@ =~= old(self)@.take(p) + rest.skip(l) + old(self)@.skip(p));
                assert(other@ =~= rest.take(l));
                assert(self.order@.take(p) =~= before.order@.take(p));
                assert(self.order@.skip(p + taken + 1) =~= before.order@.skip(p + taken));
            }
        }
    }

    /// Cuts the list after its first `at` elements and returns the rest.
    fn split_off(&mut self, at: usize) -> (r: LinkedList<T>)
        requires
            old(self).wf(),
            at <= old(self)@.len(),
        ensures
            final(self).wf(),
            r.wf(),
            final(self)@ == old(self)@.take(at as int),
            r@ == old(self)@.skip(at as int),
    {
        let mut rest = LinkedList::new();
        while self.len > at
            invariant
                self.wf(),
                rest.wf(),
                at <= self@.len() <= old(self)@.len(),
                self@ == old(self)@.take(self@.len() as int),
                rest@ == old(self)@.skip(self@.len() as int),
            decreases self@.len(),
        {
            let e = self.pop_back();
            rest.insert_at(None, Ghost(0), e);
            proof {
                let l = self@.len() as int;
                assert(self@ =~= old(self)@.take(l));
                assert(rest@ =~= old(self)@.skip(l));
            }
        }
        rest
    }

    /// Builds a list holding the items of `v` in the same order.
    pub fn from_vec(v: Vec<T>) -> (l: LinkedList<T>)
        ensures
            l.wf(),
            l@ == v@,
    {
        let mut v = v;
        let ghost all = v@;
        let mut l = LinkedList::new();
        while v.len() > 0
            invariant
                l.wf(),
                v@.len() <= all.len(),
                v@ == all.take(v@.len() as int),
                l@ == all.skip(v@.len() as int),
            decreases v@.len(),
        {
            let e = v.pop().unwrap();
            l.insert_at(None, Ghost(0), e);
            proof {
                let n = v@.len() as int;
                assert(v@ =~= all.take(n));
                assert(l@ =~= all.skip(n));
            }
        }
        assert(l@ =~= all);
        l
    }

    /// Provides a cursor at the ghost slot.
    pub fn cursor(&self) -> (c: Cursor<'_, T>)
        requires
            self.wf(),
        ensures
            c.wf(),
            c.list() == *self,
            c.index() == 0,
    {
        Cursor { current: None, list: self, index: Ghost(0) }
    }

    /// Provides a cursor, with mutable access to the list, at the ghost slot.
    pub fn cursor_mut(&mut self) -> (c: CursorMut<'_, T>)
        requires
            old(self).wf(),
        ensures
            c.wf(),
            *c.list() == *old(self),
            c.index() == 0,
            *final(self) == *final(c.list()),
    {
        CursorMut { current: None, list: self, current_len: 0 }
    }
}

/// A read-only position in a `LinkedList` that can move back and forth.
pub struct Cursor<'list, T> {
    current: Option<usize>,
    list: &'list LinkedList<T>,
    index: Ghost<nat>,
}

impl<'list, T> Cursor<'list, T> {
    /// The list the cursor looks into.
    pub closed spec fn list(&self) -> LinkedList<T> {
        *self.list
    }

    /// The cursor position: `0` at the ghost slot, `i + 1` at index `i`.
    pub closed spec fn index(&self) -> nat {
        self.index@
    }

    /// The cursor sits at the slot of its position in a well-formed list.
    pub open spec fn wf(&self) -> bool {
        &&& self.list().wf()
        &&& self.index() <= self.list()@.len()
        &&& self.at_slot()
    }

    /// The cursor's node is the one at its position.
    pub closed spec fn at_slot(&self) -> bool {
        &&& self.index@ <= self.list.len
        &&& self.current == link_to(self.list.order@, self.index@ - 1)
    }

    /// The slot one step forward.
    fn next(&self) -> (r: Option<usize>)
        requires
            self.wf(),
        ensures
            r == link_to(self.list.order@, self.index@ as int),
    {
        proof {
            lemma_linked_ends(self.list.nodes@, self.list.head, self.list.tail, self.list.order@);
            if self.index@ > 0 {
                lemma_linked_at(self.list.nodes@, self.list.head, self.list.tail, self.list.order@, self.index@ - 1);
            }
        }
        match self.current {
            None => self.list.head,
            Some(k) => self.list.nodes[k].next,
        }
    }

    /// The slot one step backward.
    fn prev(&self) -> (r: Option<usize>)
        requires
            self.wf(),
        ensures
            r == link_to(self.list.order@, prev_index(self.index@, self.list.len as nat) - 1),
    {
        proof {
            lemma_linked_ends(self.list.nodes@, self.list.head, self.list.tail, self.list.order@);
            if self.index@ > 0 {
                lemma_linked_at(self.list.nodes@, self.list.head, self.list.tail, self.list.order@, self.index@ - 1);
            }
            lemma_prev_index(self.index@, self.list.len as nat);
        }
        match self.current {
            None => self.list.tail,
            Some(k) => self.list.nodes[k].prev,
        }
    }

    /// Moves to the next element, or to the ghost slot after the tail.
    pub fn move_next(&mut self)
        requires
            old(self).wf(),
        ensures
            final(self).wf(),
            final(self).list() == old(self).list(),
            final(self).index() == next_index(old(self).index(), old(self).list()@.len()),
    {
        self.current = self.next();
        self.index = Ghost(next_index(self.index@, self.list.len as nat));
        proof {
            lemma_next_index(old(self).index@, self.list.len as nat);
        }
    }

    /// Moves to the previous element, or to the ghost slot before the head.
    pub fn move_prev(&mut self)
        requires
            old(self).wf(),
        ensures
            final(self).wf(),
            final(self).list() == old(self).list(),
            final(self).index() == prev_index(old(self).index(), old(self).list()@.len()),
    {
        self.current = self.prev();
        self.index = Ghost(prev_index(self.index@, self.list.len as nat));
        proof {
            lemma_prev_index(old(self).index@, self.list.len as nat);
        }
    }

    /// The element at the cursor; none at the ghost slot.
    pub fn current(&self) -> (r: Option<&'list T>)
        requires
            self.wf(),
        ensures
            deref_opt(r) == element_at(self.list()@, self.index()),
    {
        self.element(self.current, Ghost(self.index@))
    }

    /// The element at cursor position `pos`, held in `slot`.
    fn element(&self, slot: Option<usize>, Ghost(pos): Ghost<nat>) -> (r: Option<&'list T>)
        requires
            self.wf(),
            pos <= self.list()@.len(),
            slot == link_to(self.list.order@, pos - 1),
        ensures
            deref_opt(r) == element_at(self.list()@, pos),
    {
        let list: &'list LinkedList<T> = self.list;
        match slot {
            None => None,
            Some(k) => {
                proof {
                    lemma_linked_at(list.nodes@, list.head, list.tail, list.order@, pos - 1);
                }
                Some(&list.nodes[k].element)
            },
        }
    }

    /// The element after the cursor, without moving; none at the tail.
    pub fn peek(&self) -> (r: Option<&'list T>)
        requires
            self.wf(),
        ensures
            deref_opt(r) == element_at(self.list()@, next_index(self.index(), self.list()@.len())),
    {
        let slot = self.next();
        self.element(slot, Ghost(next_index(self.index@, self.list.len as nat)))
    }

    /// The element before the cursor, without moving; none at the head.
    pub fn peek_before(&self) -> (r: Option<&'list T>)
        requires
            self.wf(),
        ensures
            deref_opt(r) == element_at(self.list()@, prev_index(self.index(), self.list()@.len())),
    {
        let slot = self.prev();
        self.element(slot, Ghost(prev_index(self.index@, self.list.len as nat)))
    }
}

/// A position in a `LinkedList` with mutable access: it moves, reads, edits,
/// splices and splits the list. Besides its node it keeps its offset: the
/// number of elements up to and including the cursor's own (`0` at the ghost
/// slot), which wraps modulo `len + 1` as the cursor moves. `finish` ends
/// the cursor and hands the list back to the caller's proofs.
pub struct CursorMut<'list, T> {
    current: Option<usize>,
    list: &'list mut LinkedList<T>,
    current_len: usize,
}

impl<'list, T> CursorMut<'list, T> {
    /// The borrowed list.
    pub closed spec fn list(self) -> &'list mut LinkedList<T> {
        self.list
    }

    /// The elements of the list, as they stand.
    pub open spec fn items(self) -> Seq<T> {
        (*self.list())@
    }

    /// The cursor position, which is also its offset.
    pub closed spec fn index(self) -> nat {
        self.current_len as nat
    }

    /// The cursor sits at the slot of its position in a well-formed list,
    /// and its offset is that position.
    pub open spec fn wf(self) -> bool {
        &&& self.list().wf()
        &&& self.index() <= self.items().len()
        &&& self.at_slot()
    }

    /// The cursor's node is the one at its position.
    pub closed spec fn at_slot(self) -> bool {
        &&& self.current_len <= self.list.len
        &&& self.current == link_to(self.list.order@, self.current_len - 1)
    }

    /// Ends the cursor and hands the list back as it stands, well formed.
    pub fn finish(self)
        requires
            self.wf(),
        ensures
            *final(self.list()) == *self.list(),
    {
        let CursorMut { current: _, list: _, current_len: _ } = self;
    }

    /// The slot one step forward.
    fn next(&self) -> (r: Option<usize>)
        requires
            self.wf(),
        ensures
            r == link_to(old(self.list).order@, self.current_len as int),
    {
        proof {
            lemma_linked_ends(self.list.nodes@, self.list.head, self.list.tail, self.list.order@);
            if self.current_len > 0 {
                lemma_linked_at(self.list.nodes@, self.list.head, self.list.tail, self.list.order@, self.current_len - 1);
            }
        }
        match self.current {
            None => self.list.head,
            Some(k) => self.list.nodes[k].next,
        }
    }

    /// The slot one step backward.
    fn prev(&self) -> (r: Option<usize>)
        requires
            self.wf(),
        ensures
            r == link_to(old(self.list).order@, prev_index(self.current_len as nat, old(self.list).len as nat) - 1),
    {
        proof {
            lemma_linked_ends(self.list.nodes@, self.list.head, self.list.tail, self.list.order@);
            if self.current_len > 0 {
                lemma_linked_at(self.list.nodes@, self.list.head, self.list.tail, self.list.order@, self.current_len - 1);
            }
            lemma_prev_index(self.current_len as nat, self.list.len as nat);
        }
        match self.current {
            None => self.list.tail,
            Some(k) => self.list.nodes[k].prev,
        }
    }

    /// Steps the offset forward, wrapping modulo `len + 1`.
    fn inc_len(&mut self)
        requires
            old(self).current_len <= old(self).list.len,
        ensures
            final(self).current_len == next_index(old(self).current_len as nat, old(self).list.len as nat),
            final(self).current_len == (old(self).current_len + 1) % (old(self).list.len + 1),
            final(self).current == old(self).current,
            final(self).list == old(self).list,
    {
        proof {
            lemma_next_index(self.current_len as nat, self.list.len as nat);
        }
        if self.current_len == self.list.len {
            self.current_len = 0;
        } else {
            self.current_len = self.current_len + 1;
        }
    }

    /// Steps the offset backward, wrapping modulo `len + 1`.
    fn dec_len(&mut self)
        requires
            old(self).current_len <= old(self).list.len,
        ensures
            final(self).current_len == prev_index(old(self).current_len as nat, old(self).list.len as nat),
            final(self).current_len == (old(self).current_len + old(self).list.len) % (old(self).list.len + 1),
            final(self).current == old(self).current,
            final(self).list == old(self).list,
    {
        proof {
            lemma_prev_index(self.current_len as nat, self.list.len as nat);
        }
        if self.current_len == 0 {
            self.current_len = self.list.len;
        } else {
            self.current_len = self.current_len - 1;
        }
    }

    /// Moves to the next element, or to the ghost slot after the tail.
    pub fn move_next(&mut self)
        requires
            old(self).wf(),
        ensures
            final(self).wf(),
            *final(self).list() == *old(self).list(),
            *final(final(self).list()) == *final(old(self).list()),
            final(self).index() == next_index(old(self).index(), old(self).items().len()),
    {
        let next = self.next();
        self.inc_len();
        self.current = next;
        proof {
            lemma_next_index(old(self).current_len as nat, self.list.len as nat);
        }
    }

    /// Moves to the previous element, or to the ghost slot before the head.
    pub fn move_prev(&mut self)
        requires
            old(self).wf(),
        ensures
            final(self).wf(),
            *final(self).list() == *old(self).list(),
            *final(final(self).list()) == *final(old(self).list()),
            final(self).index() == prev_index(old(self).index(), old(self).items().len()),
    {
        let prev = self.prev();
        self.dec_len();
        self.current = prev;
        proof {
            lemma_prev_index(old(self).current_len as nat, self.list.len as nat);
        }
    }

    /// Inserts `item` right after the cursor (at the front from the ghost
    /// slot). The cursor stays where it is.
    pub fn insert(&mut self, item: T)
        requires
            old(self).wf(),
        ensures
            final(self).wf(),
            *final(final(self).list()) == *final(old(self).list()),
            final(self).items() == old(self).items().insert(old(self).index() as int, item),
            final(self).index() == old(self).index(),
    {
        let ghost p = self.current_len as int;
        self.list.insert_at(self.current, Ghost(p), item);
        assert(self.current == link_to(self.list.order@, self.current_len - 1));
    }

    /// Inserts `item` right before the cursor (at the back from the ghost
    /// slot). The cursor stays at its element, whose offset grows by one.
    pub fn insert_before(&mut self, item: T)
        requires
            old(self).wf(),
        ensures
            final(self).wf(),
            *final(final(self).list()) == *final(old(self).list()),
            final(self).items() == old(self).items().insert(prev_index(old(self).index(), old(self).items().len()) as int, item),
            final(self).index() == if old(self).index() == 0 { 0 } else { old(self).index() + 1 },
    {
        let prev = self.prev();
        let ghost p = prev_index(self.current_len as nat, self.list.len as nat) as int;
        proof {
            lemma_prev_index(self.current_len as nat, self.list.len as nat);
        }
        self.list.insert_at(prev, Ghost(p), item);
        if self.current.is_some() {
            self.current_len = self.current_len + 1;
        }
        assert(self.current == link_to(self.list.order@, self.current_len - 1));
    }

    /// Moves every element of `other` in right after the cursor, in order.
    /// The cursor stays where it is. Each list owns its own arena, so the
    /// elements move one by one: this takes time linear in `other`'s length.
    pub fn insert_list(&mut self, other: LinkedList<T>)
        requires
            old(self).wf(),
            other.wf(),
        ensures
            final(self).wf(),
            *final(final(self).list()) == *final(old(self).list()),
            final(self).items() == spliced(old(self).items(), old(self).index() as int, other@),
            final(self).index() == old(self).index(),
            other@.len() == 0 ==> *final(self).list() == *old(self).list(),
    {
        let ghost p = self.current_len as int;
        self.list.splice_at(self.current, Ghost(p), other);
        proof {
            if p > 0 {
                assert(self.list.order@.take(p)[p - 1] == old(self).list.order@.take(p)[p - 1]);
            }
        }
        assert(self.current == link_to(self.list.order@, self.current_len - 1));
    }

    /// Moves every element of `other` in right before the cursor, in order
    /// (at the back from the ghost slot). Away from the ghost slot the
    /// cursor's offset grows by the number of elements moved in. The elements
    /// move one by one between arenas, in time linear in `other`'s length.
    pub fn insert_list_before(&mut self, other: LinkedList<T>)
        requires
            old(self).wf(),
            other.wf(),
        ensures
            final(self).wf(),
            *final(final(self).list()) == *final(old(self).list()),
            final(self).items() == spliced(
                old(self).items(),
                prev_index(old(self).index(), old(self).items().len()) as int,
                other@,
            ),
            final(self).index() == if old(self).index() == 0 { 0 } else { old(self).index() + other@.len() },
            other@.len() == 0 ==> *final(self).list() == *old(self).list(),
    {
        let prev = self.prev();
        let n = other.len;
        let ghost p = prev_index(self.current_len as nat, self.list.len as nat) as int;
        proof {
            lemma_prev_index(self.current_len as nat, self.list.len as nat);
        }
        self.list.splice_at(prev, Ghost(p), other);
        if self.current_len != 0 {
            self.current_len = self.current_len + n;
            proof {
                let o = self.list.order@;
                assert(o.skip(p + n)[0] == old(self).list.order@.skip(p)[0]);
            }
        }
        assert(self.current == link_to(self.list.order@, self.current_len - 1));
    }

    /// Removes and returns the element right after the cursor (the head from
    /// the ghost slot); none at the tail or in an empty list.
    pub fn pop(&mut self) -> (r: Option<T>)
        requires
            old(self).wf(),
        ensures
            final(self).wf(),
            *final(final(self).list()) == *final(old(self).list()),
            final(self).index() == old(self).index(),
            old(self).index() < old(self).items().len() ==> {
                &&& r == Some(old(self).items()[old(self).index() as int])
                &&& final(self).items() == old(self).items().remove(old(self).index() as int)
            },
            old(self).index() == old(self).items().len() ==> {
                &&& r is None
                &&& *final(self).list() == *old(self).list()
            },
    {
        match self.next() {
            None => None,
            Some(k) => {
                let ghost p = self.current_len as int;
                let moved = self.list.len - 1;
                let e = self.list.remove_at(k, Ghost(p));
                self.follow_move(moved, k);
                proof {
                    let r = old(self).list.order@.remove(p);
                    if p > 0 {
                        assert(r[p - 1] == old(self).list.order@[p - 1]);
                    }
                }
                assert(self.current == link_to(self.list.order@, self.current_len - 1));
                Some(e)
            },
        }
    }

    /// Removes and returns the element right before the cursor (the tail from
    /// the ghost slot); none at the head or in an empty list.
    pub fn pop_prev(&mut self) -> (r: Option<T>)
        requires
            old(self).wf(),
        ensures
            final(self).wf(),
            *final(final(self).list()) == *final(old(self).list()),
            ({
                let p = prev_index(old(self).index(), old(self).items().len());
                &&& p > 0 ==> {
                    &&& r == Some(old(self).items()[p - 1])
                    &&& final(self).items() == old(self).items().remove(p - 1)
                    &&& final(self).index() == if old(self).index() == 0 { 0 } else { (old(self).index() - 1) as nat }
                }
                &&& p == 0 ==> {
                    &&& r is None
                    &&& *final(self).list() == *old(self).list()
                    &&& final(self).index() == old(self).index()
                }
            }),
    {
        proof {
            lemma_prev_index(self.current_len as nat, self.list.len as nat);
        }
        match self.prev() {
            None => None,
            Some(k) => {
                let ghost p = prev_index(self.current_len as nat, self.list.len as nat) - 1;
                let moved = self.list.len - 1;
                let e = self.list.remove_at(k, Ghost(p));
                if self.current.is_some() {
                    self.current_len = self.current_len - 1;
                }
                self.follow_move(moved, k);
                proof {
                    let r = old(self).list.order@.remove(p);
                    if old(self).current_len > 0 {
                        assert(r[p] == old(self).list.order@[p + 1]);
                    }
                }
                assert(self.current == link_to(self.list.order@, self.current_len - 1));
                Some(e)
            },
        }
    }

    /// After the node of slot `moved` went to slot `k`, follows it there.
    fn follow_move(&mut self, moved: usize, k: usize)
        ensures
            final(self).current == (if old(self).current == Some(moved) { Some(k) } else { old(self).current }),
            final(self).list == old(self).list,
            final(self).current_len == old(self).current_len,
    {
        if let Some(c) = self.current {
            if c == moved {
                self.current = Some(k);
            }
        }
    }

    /// Splits the list after the cursor: the list keeps the elements up to
    /// and including the cursor's, and the rest is returned. From the ghost
    /// slot the whole list is returned and the list is left empty. The
    /// returned elements move one by one into an arena of their own, in time
    /// linear in their number.
    pub fn split(self) -> (r: LinkedList<T>)
        requires
            self.wf(),
        ensures
            final(self.list()).wf(),
            final(self.list())@ == self.items().take(self.index() as int),
            r.wf(),
            r@ == self.items().skip(self.index() as int),
    {
        let CursorMut { current: _, list, current_len } = self;
        list.split_off(current_len)
    }

    /// Splits the list before the cursor: the list keeps the elements before
    /// the cursor's, and the cursor's element and the rest are returned.
    /// From the ghost slot or the head the whole list is returned and the
    /// list is left empty. The returned elements move one by one into an
    /// arena of their own, in time linear in their number.
    pub fn split_before(self) -> (r: LinkedList<T>)
        requires
            self.wf(),
        ensures
            final(self.list()).wf(),
            final(self.list())@ == self.items().take(split_before_index(self.index()) as int),
            r.wf(),
            r@ == self.items().skip(split_before_index(self.index()) as int),
    {
        let CursorMut { current: _, list, current_len } = self;
        let at = if current_len == 0 {
            0
        } else {
            current_len - 1
        };
        list.split_off(at)
    }

    /// Mutable access to the element at cursor position `pos`, held in `slot`.
    fn element_mut(&mut self, slot: Option<usize>, Ghost(pos): Ghost<nat>) -> (r: Option<&mut T>)
        requires
            old(self).wf(),
            pos <= old(self).items().len(),
            slot == link_to(old(self).list.order@, pos - 1),
        ensures
            final(self).wf(),
            *final(final(self).list()) == *final(old(self).list()),
            final(self).index() == old(self).index(),
            match r {
                Some(e) => {
                    &&& pos > 0
                    &&& *e == old(self).items()[pos - 1]
                    &&& final(self).items() == old(self).items().update(pos - 1, *final(e))
                },
                None => {
                    &&& pos == 0
                    &&& *final(self).list() == *old(self).list()
                },
            },
    {
        match slot {
            None => {
                assert(pos == 0);
                None
            },
            Some(k) => {
                proof {
                    lemma_linked_at(self.list.nodes@, self.list.head, self.list.tail, self.list.order@, pos - 1);
                }
                let ghost n0 = self.list.nodes@;
                let node = &mut self.list.nodes[k];
                let e = &mut node.element;
                proof {
                    let n1 = n0.update(k as int, Node { element: *final(e), ..n0[k as int] });
                    lemma_linked_same_links(n0, self.list.head, self.list.tail, self.list.order@, n1);
                    lemma_linked_ends(n0, self.list.head, self.list.tail, self.list.order@);
                    lemma_elements_update(n0, self.list.order@, pos - 1, *final(e));
                }
                Some(e)
            },
        }
    }

    /// Mutable access to the element at the cursor; none at the ghost slot.
    pub fn current(&mut self) -> (r: Option<&mut T>)
        requires
            old(self).wf(),
        ensures
            final(self).wf(),
            *final(final(self).list()) == *final(old(self).list()),
            final(self).index() == old(self).index(),
            ({
                let pos = old(self).index();
                match r {
                    Some(e) => {
                        &&& pos > 0
                        &&& *e == old(self).items()[pos - 1]
                        &&& final(self).items() == old(self).items().update(pos - 1, *final(e))
                    },
                    None => {
                        &&& pos == 0
                        &&& *final(self).list() == *old(self).list()
                    },
                }
            }),
    {
        let slot = self.current;
        self.element_mut(slot, Ghost(self.current_len as nat))
    }

    /// Mutable access to the element after the cursor; none at the tail.
    pub fn peek(&mut self) -> (r: Option<&mut T>)
        requires
            old(self).wf(),
        ensures
            final(self).wf(),
            *final(final(self).list()) == *final(old(self).list()),
            final(self).index() == old(self).index(),
            ({
                let pos = next_index(old(self).index(), old(self).items().len());
                match r {
                    Some(e) => {
                        &&& pos > 0
                        &&& *e == old(self).items()[pos - 1]
                        &&& final(self).items() == old(self).items().update(pos - 1, *final(e))
                    },
                    None => {
                        &&& pos == 0
                        &&& *final(self).list() == *old(self).list()
                    },
                }
            }),
    {
        let slot = self.next();
        self.element_mut(slot, Ghost(next_index(self.current_len as nat, self.list.len as nat)))
    }

    /// Mutable access to the element before the cursor; none at the head.
    pub fn peek_before(&mut self) -> (r: Option<&mut T>)
        requires
            old(self).wf(),
        ensures
            final(self).wf(),
            *final(final(self).list()) == *final(old(self).list()),
            final(self).index() == old(self).index(),
            ({
                let pos = prev_index(old(self).index(), old(self).items().len());
                match r {
                    Some(e) => {
                        &&& pos > 0
                        &&& *e == old(self).items()[pos - 1]
                        &&& final(self).items() == old(self).items().update(pos - 1, *final(e))
                    },
                    None => {
                        &&& pos == 0
                        &&& *final(self).list() == *old(self).list()
                    },
                }
            }),
    {
        let slot = self.prev();
        self.element_mut(slot, Ghost(prev_index(self.current_len as nat, self.list.len as nat)))
    }

    /// A read-only cursor at the same position.
    pub fn as_cursor(&self) -> (c: Cursor<'_, T>)
        requires
            self.wf(),
        ensures
            c.wf(),
            c.list() == *self.list(),
            c.index() == self.index(),
    {
        Cursor { current: self.current, list: self.list, index: Ghost(self.current_len as nat) }
    }
}

impl<T> LinkedList<T> {
    /// Whether arena slot `slot` holds a node.
    pub closed spec fn holds(&self, slot: usize) -> bool {
        slot < self.nodes@.len()
    }

    /// The forward link of the node in `slot`.
    pub closed spec fn next_link(&self, slot: usize) -> Option<usize> {
        self.nodes@[slot as int].next
    }

    /// The backward link of the node in `slot`.
    pub closed spec fn prev_link(&self, slot: usize) -> Option<usize> {
        self.nodes@[slot as int].prev
    }

    /// The slot reached from the head by following `k` forward links.
    pub closed spec fn reach(&self, k: nat) -> Option<usize>
        decreases k,
    {
        if k == 0 {
            self.head
        } else {
            match self.reach((k - 1) as nat) {
                Some(s) => if s < self.nodes@.len() {
                    self.nodes@[s as int].next
                } else {
                    None
                },
                None => None,
            }
        }
    }
}

proof fn lemma_reach<T>(l: &LinkedList<T>, k: nat)
    requires
        l.wf(),
        k <= l.len,
    ensures
        l.reach(k) == link_to(l.order@, k as int),
    decreases k,
{
    lemma_linked_ends(l.nodes@, l.head, l.tail, l.order@);
    if k > 0 {
        lemma_reach(l, (k - 1) as nat);
        lemma_linked_at(l.nodes@, l.head, l.tail, l.order@, k - 1);
    }
}

/// The length counter is the number of nodes reachable from the head: `k`
/// forward links from the head reach a node for every `k` below the length,
/// and as many links as the length run off the end.
pub proof fn lemma_len_counts_reachable<T>(l: &LinkedList<T>)
    requires
        l.wf(),
    ensures
        forall|k: nat| k < l@.len() ==> (#[trigger] l.reach(k)) is Some,
        l.reach(l@.len()) is None,
{
    assert forall|k: nat| k < l@.len() implies (#[trigger] l.reach(k)) is Some by {
        lemma_reach(l, k);
    }
    lemma_reach(l, l.len as nat);
}

/// Links are symmetric: from any node, following the forward link and then
/// the backward link returns to it, and so does the reverse.
pub proof fn lemma_links_symmetric<T>(l: &LinkedList<T>, slot: usize)
    requires
        l.wf(),
        l.holds(slot),
    ensures
        l.next_link(slot) matches Some(t) ==> l.holds(t) && l.prev_link(t) == Some(slot),
        l.prev_link(slot) matches Some(t) ==> l.holds(t) && l.next_link(t) == Some(slot),
{
    lemma_linked_ends(l.nodes@, l.head, l.tail, l.order@);
    let i = lemma_slot_in_chain(l.order@, slot);
    lemma_linked_at(l.nodes@, l.head, l.tail, l.order@, i);
    if i > 0 {
        lemma_linked_at(l.nodes@, l.head, l.tail, l.order@, i - 1);
    }
    if i + 1 < l.order@.len() {
        lemma_linked_at(l.nodes@, l.head, l.tail, l.order@, i + 1);
    }
}

} // verus!
