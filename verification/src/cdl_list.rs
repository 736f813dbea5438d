//! The circular doubly linked list.
//!
//! Nodes are stored in an arena (`Vec<Option<Node<T>>>`) owned by the list
//! handle; a link names the arena slot of its target.  A slot holding `Some`
//! is a live node; a slot holding `None` is free and its index is kept on a
//! free list for reuse, so a removed node's payload is dropped at once and
//! its slot is handed back.  The link invariant — every `next` link owning
//! except the tail's observing wrap edge, every `prev` link observing, the
//! owning `next` chain from the head visiting every live node exactly once —
//! is the type's well-formedness predicate, re-established by every mutating
//! operation.

use vstd::prelude::*;

verus! {

use crate::ops::{ListOp, step, step_result};

/// A tagged reference to a node: the arena slot of the target, tagged as
/// either owning (keeps the target alive) or observing (merely names it).
#[derive(Clone, Copy)]
enum Link {
    Owning(usize),
    Observing(usize),
}

/// One node of the ring: the payload plus its two link fields.
struct Node<T> {
    next: Link,
    prev: Link,
    data: T,
}

/// A circular doubly linked list with O(1) operations at both ends and
/// O(k) indexed insertion and removal.
///
/// The mathematical view of a list is the sequence of its payloads from
/// head to tail, written `self@`.
pub struct CdlList<T> {
    /// The arena: `Some` slots hold the live nodes, `None` slots are free.
    nodes: Vec<Option<Node<T>>>,
    /// Indices of the `None` slots, available for reuse.
    free: Vec<usize>,
    /// Slot of the first node; `None` exactly when the list is empty.
    head: Option<usize>,
    /// Slot of the last node; `None` exactly when the list is empty.
    tail: Option<usize>,
    /// Number of live nodes.
    size: usize,
    /// Ghost: the slots of the live nodes in list order, head first.
    order: Ghost<Seq<usize>>,
}

impl<T> View for CdlList<T> {
    type V = Seq<T>;

    /// The contents of the list, head first.
    closed spec fn view(&self) -> Seq<T> {
        Seq::new(self.order@.len(), |k: int| self.nodes@[self.order@[k] as int]->0.data)
    }
}

impl<T> CdlList<T> {
    /// Position `k` of the ghost order names a live slot whose links follow
    /// the ring shape: `next` owns the successor, except at the tail, whose
    /// `next` observes the head; `prev` observes the predecessor, the
    /// head's wrapping around to the tail.
    spec fn order_entry_wf(&self, k: int) -> bool {
        let ord = self.order@;
        let idx = ord[k] as int;
        &&& idx < self.nodes@.len()
        &&& self.nodes@[idx] is Some
        &&& self.nodes@[idx]->0.next == (if k + 1 < ord.len() {
            Link::Owning(ord[k + 1])
        } else {
            Link::Observing(ord[0])
        })
        &&& self.nodes@[idx]->0.prev == (if k >= 1 {
            Link::Observing(ord[k - 1])
        } else {
            Link::Observing(ord[ord.len() - 1])
        })
    }

    /// Position `k` of the free list names a free (empty) slot.
    spec fn free_entry_wf(&self, k: int) -> bool {
        let idx = self.free@[k] as int;
        &&& idx < self.nodes@.len()
        &&& self.nodes@[idx] is None
    }

    /// The structural invariant, established by `new` and preserved by
    /// every operation: the ghost order lists each live slot exactly once
    /// with the ring-shaped links of `order_entry_wf`, the free list holds
    /// exactly the empty slots, and `head`/`tail` name the ends of the
    /// order (both absent exactly when the list is empty).
    pub closed spec fn well_formed(&self) -> bool {
        &&& self.size == self.order@.len()
        &&& forall|k: int| 0 <= k < self.order@.len() ==> #[trigger] self.order_entry_wf(k)
        &&& forall|k1: int, k2: int|
            0 <= k1 < k2 < self.order@.len() ==> self.order@[k1] != self.order@[k2]
        &&& forall|k: int| 0 <= k < self.free@.len() ==> #[trigger] self.free_entry_wf(k)
        &&& forall|k1: int, k2: int|
            0 <= k1 < k2 < self.free@.len() ==> self.free@[k1] != self.free@[k2]
        &&& forall|i: usize|
            i < self.nodes@.len() && (#[trigger] self.nodes@[i as int]) is Some
                ==> self.order@.contains(i)
        &&& forall|i: usize|
            i < self.nodes@.len() && (#[trigger] self.nodes@[i as int]) is None
                ==> self.free@.contains(i)
        &&& (self.order@.len() == 0 ==> self.head is None && self.tail is None)
        &&& (self.order@.len() > 0 ==> self.head == (Some(self.order@[0])) && self.tail == (
        Some(self.order@.last())))
    }

    /// Places a node into a free slot (or a fresh one at the end of the
    /// arena) and returns its index.  The slot chosen is the last free one,
    /// so the index is determined by the arena and free list alone.
    fn place_node(nodes: &mut Vec<Option<Node<T>>>, free: &mut Vec<usize>, node: Node<T>) -> (idx:
        usize)
        requires
            forall|k: int|
                0 <= k < old(free)@.len() ==> (#[trigger] old(free)@[k]) < old(nodes)@.len()
                    && old(nodes)@[old(free)@[k] as int] is None,
        ensures
            idx < final(nodes)@.len(),
            final(nodes)@[idx as int] == (Some(node)),
            forall|i: int|
                0 <= i < old(nodes)@.len() && i != idx ==> final(nodes)@[i] == old(nodes)@[i],
            old(nodes)@.len() <= final(nodes)@.len(),
            if old(free)@.len() > 0 {
                &&& idx == old(free)@.last()
                &&& final(free)@ == old(free)@.drop_last()
                &&& final(nodes)@.len() == old(nodes)@.len()
                &&& old(nodes)@[idx as int] is None
            } else {
                &&& idx == old(nodes)@.len()
                &&& final(free)@ == old(free)@
                &&& final(nodes)@.len() == old(nodes)@.len() + 1
            },
    {
        match free.pop() {
            Some(i) => {
                nodes[i] = Some(node);
                i
            },
            None => {
                nodes.push(Some(node));
                nodes.len() - 1
            },
        }
    }

    /// Rewrites the `next` link of the live node in slot `idx`, leaving its
    /// `prev` link and payload as they were.
    fn set_next(nodes: &mut Vec<Option<Node<T>>>, idx: usize, link: Link)
        requires
            idx < old(nodes)@.len(),
            old(nodes)@[idx as int] is Some,
        ensures
            final(nodes)@.len() == old(nodes)@.len(),
            final(nodes)@[idx as int] is Some,
            final(nodes)@[idx as int]->0.next == link,
            final(nodes)@[idx as int]->0.prev == old(nodes)@[idx as int]->0.prev,
            final(nodes)@[idx as int]->0.data == old(nodes)@[idx as int]->0.data,
            forall|i: int|
                0 <= i < old(nodes)@.len() && i != idx ==> final(nodes)@[i] == old(nodes)@[i],
    {
        match &mut nodes[idx] {
            Some(node) => node.next = link,
            None => {
                proof {
                    assert(false);
                }
            },
        }
    }

    /// Rewrites the `prev` link of the live node in slot `idx`, leaving its
    /// `next` link and payload as they were.
    fn set_prev(nodes: &mut Vec<Option<Node<T>>>, idx: usize, link: Link)
        requires
            idx < old(nodes)@.len(),
            old(nodes)@[idx as int] is Some,
        ensures
            final(nodes)@.len() == old(nodes)@.len(),
            final(nodes)@[idx as int] is Some,
            final(nodes)@[idx as int]->0.prev == link,
            final(nodes)@[idx as int]->0.next == old(nodes)@[idx as int]->0.next,
            final(nodes)@[idx as int]->0.data == old(nodes)@[idx as int]->0.data,
            forall|i: int|
                0 <= i < old(nodes)@.len() && i != idx ==> final(nodes)@[i] == old(nodes)@[i],
    {
        match &mut nodes[idx] {
            Some(node) => node.prev = link,
            None => {
                proof {
                    assert(false);
                }
            },
        }
    }

    /// Reads the `next` link of the live node in slot `idx`.
    fn next_of(nodes: &Vec<Option<Node<T>>>, idx: usize) -> (l: Link)
        requires
            idx < nodes@.len(),
            nodes@[idx as int] is Some,
        ensures
            l == nodes@[idx as int]->0.next,
    {
        match &nodes[idx] {
            Some(node) => node.next,
            None => {
                proof {
                    assert(false);
                }
                Link::Observing(0)
            },
        }
    }

    /// Reads the `prev` link of the live node in slot `idx`.
    fn prev_of(nodes: &Vec<Option<Node<T>>>, idx: usize) -> (l: Link)
        requires
            idx < nodes@.len(),
            nodes@[idx as int] is Some,
        ensures
            l == nodes@[idx as int]->0.prev,
    {
        match &nodes[idx] {
            Some(node) => node.prev,
            None => {
                proof {
                    assert(false);
                }
                Link::Observing(0)
            },
        }
    }

    /// Takes the node out of slot `idx`, freeing the slot: the payload and
    /// links are returned by value, the slot becomes empty, and its index
    /// goes onto the free list.
    fn take_node(nodes: &mut Vec<Option<Node<T>>>, free: &mut Vec<usize>, idx: usize) -> (node:
        Node<T>)
        requires
            idx < old(nodes)@.len(),
            old(nodes)@[idx as int] is Some,
        ensures
            node == old(nodes)@[idx as int]->0,
            final(nodes)@ == old(nodes)@.update(idx as int, None::<Node<T>>),
            final(free)@ == old(free)@.push(idx),
    {
        let slot = &mut nodes[idx];
        let taken = slot.take();
        free.push(idx);
        taken.unwrap()
    }

    /// Returns a new, empty list.
    pub fn new() -> (l: CdlList<T>)
        ensures
            l.well_formed(),
            l@ == Seq::<T>::empty(),
    {
        let l = CdlList {
            nodes: Vec::new(),
            free: Vec::new(),
            head: None,
            tail: None,
            size: 0,
            order: Ghost(Seq::empty()),
        };
        proof {
            assert(l@ =~= Seq::<T>::empty());
        }
        l
    }

    /// Returns whether the list is empty.
    pub fn is_empty(&self) -> (r: bool)
        requires
            self.well_formed(),
        ensures
            r <==> self@.len() == 0,
    {
        self.size == 0
    }

    /// Returns how many elements are in the list.
    pub fn size(&self) -> (r: usize)
        requires
            self.well_formed(),
        ensures
            r == self@.len(),
    {
        self.size
    }

    /// Pushes an element at one end of the list: at the front when
    /// `insert_front` holds, at the back otherwise.
    ///
    /// A new node is placed in the arena with its `prev` observing the old
    /// tail.  On an empty list both of its links observe the node itself.
    /// At the front, its `next` owns the old head, and the old head's
    /// `prev` and the tail's wrap edge are redirected to observe it; at the
    /// back, its `next` observes the head, the old tail's `next` becomes an
    /// owning link to it, and the head's `prev` is redirected to observe it.
    fn push(&mut self, t: T, insert_front: bool)
        requires
            old(self).well_formed(),
            old(self)@.len() < usize::MAX,
        ensures
            final(self).well_formed(),
            insert_front ==> final(self)@ == old(self)@.insert(0, t),
            !insert_front ==> final(self)@ == old(self)@.push(t),
    {
        let ghost pre = *self;
        if self.size == 0 {
            // The node's links must name its own slot, which `place_node`
            // determines from the free list and the arena alone.
            let idx_hint = if self.free.len() > 0 {
                self.free[self.free.len() - 1]
            } else {
                self.nodes.len()
            };
            let node = Node { next: Link::Observing(idx_hint), prev: Link::Observing(idx_hint), data: t };
            proof {
                lemma_free_entries(pre);
            }
            let idx = Self::place_node(&mut self.nodes, &mut self.free, node);
            self.head = Some(idx);
            self.tail = Some(idx);
            self.size = 1;
            let ghost new_ord: Seq<usize> = seq![idx];
            self.order = Ghost(new_ord);
            proof {
                assert forall|k: int| 0 <= k < self.order@.len() implies #[trigger] self
                    .order_entry_wf(k) by {
                    assert(self.nodes@[idx as int] is Some);
                }
                assert forall|k: int| 0 <= k < self.free@.len() implies #[trigger] self
                    .free_entry_wf(k) by {
                    assert(pre.free_entry_wf(k));
                }
                assert forall|i: usize|
                    i < self.nodes@.len() && (#[trigger] self.nodes@[i as int]) is Some implies
                    self.order@.contains(i) by {
                    if i != idx {
                        assert(pre.nodes@[i as int] is Some);
                        assert(pre.order@.contains(i));
                        assert(false);
                    } else {
                        assert(self.order@[0] == idx);
                    }
                }
                assert forall|i: usize|
                    i < self.nodes@.len() && (#[trigger] self.nodes@[i as int]) is None implies
                    self.free@.contains(i) by {
                    assert(pre.nodes@[i as int] is None);
                    assert(pre.free@.contains(i));
                    let k = choose|k: int| 0 <= k < pre.free@.len() && pre.free@[k] == i;
                    if pre.free@.len() > 0 && idx == pre.free@.last() {
                        assert(k < pre.free@.len() - 1);
                        assert(self.free@[k] == i);
                    }
                }
                assert(self@ =~= pre@.insert(0, t));
                assert(self@ =~= pre@.push(t));
            }
        } else {
            let head_idx = self.head.unwrap();
            let tail_idx = self.tail.unwrap();
            proof {
                assert(pre.order_entry_wf(0));
                assert(pre.order_entry_wf(pre.order@.len() - 1));
            }
            if insert_front {
                let node = Node { next: Link::Owning(head_idx), prev: Link::Observing(tail_idx), data: t };
                proof {
                    lemma_free_entries(pre);
                }
                let idx = Self::place_node(&mut self.nodes, &mut self.free, node);
                proof {
                    lemma_placed_slot_fresh(pre, idx as int);
                }
                Self::set_prev(&mut self.nodes, head_idx, Link::Observing(idx));
                Self::set_next(&mut self.nodes, tail_idx, Link::Observing(idx));
                self.head = Some(idx);
                self.size = self.size + 1;
                self.order = Ghost(pre.order@.insert(0, idx));
                proof {
                    let ord = pre.order@;
                    let len = ord.len() as int;
                    ord.insert_ensures(0, idx);
                    assert forall|k: int| 0 <= k < self.order@.len() implies #[trigger] self
                        .order_entry_wf(k) by {
                        if k >= 1 {
                            assert(pre.order_entry_wf(k - 1));
                            if k - 1 == 0 && len == 1 {
                            } else if k - 1 == 0 {
                                assert(ord[0] != ord[len - 1]);
                            } else if k - 1 == len - 1 {
                                assert(ord[0] != ord[len - 1]);
                            } else {
                                assert(ord[k - 1] != ord[0]);
                                assert(ord[k - 1] != ord[len - 1]);
                            }
                        }
                    }
                    assert forall|k: int| 0 <= k < self.free@.len() implies #[trigger] self
                        .free_entry_wf(k) by {
                        assert(pre.free_entry_wf(k));
                        assert(pre.order_entry_wf(0));
                        assert(pre.order_entry_wf(len - 1));
                    }
                    assert forall|i: usize|
                        i < self.nodes@.len() && (#[trigger] self.nodes@[i as int]) is Some
                        implies self.order@.contains(i) by {
                        if i == idx {
                            assert(self.order@[0] == idx);
                        } else {
                            assert(pre.nodes@[i as int] is Some);
                            assert(pre.order@.contains(i));
                            let k = choose|k: int| 0 <= k < len && ord[k] == i;
                            assert(self.order@[k + 1] == i);
                        }
                    }
                    assert forall|i: usize|
                        i < self.nodes@.len() && (#[trigger] self.nodes@[i as int]) is None
                        implies self.free@.contains(i) by {
                        assert(pre.order_entry_wf(0));
                        assert(pre.order_entry_wf(len - 1));
                        assert(pre.nodes@[i as int] is None);
                        assert(pre.free@.contains(i));
                        let k = choose|k: int| 0 <= k < pre.free@.len() && pre.free@[k] == i;
                        if pre.free@.len() > 0 && idx == pre.free@.last() {
                            assert(k < pre.free@.len() - 1);
                            assert(self.free@[k] == i);
                        }
                    }
                    assert(self.order@.last() == ord.last());
                    pre@.insert_ensures(0, t);
                    assert forall|k: int| 0 <= k < self@.len() implies self@[k] == pre@.insert(
                        0,
                        t,
                    )[k] by {
                        if k >= 1 {
                            assert(pre.order_entry_wf(k - 1));
                            assert(ord[k - 1] != ord[0] || k - 1 == 0);
                            assert(ord[k - 1] != ord[len - 1] || k - 1 == len - 1);
                        }
                    }
                    assert(self@ =~= pre@.insert(0, t));
                }
            } else {
                let node = Node { next: Link::Observing(head_idx), prev: Link::Observing(tail_idx), data: t };
                proof {
                    lemma_free_entries(pre);
                }
                let idx = Self::place_node(&mut self.nodes, &mut self.free, node);
                proof {
                    lemma_placed_slot_fresh(pre, idx as int);
                }
                Self::set_next(&mut self.nodes, tail_idx, Link::Owning(idx));
                Self::set_prev(&mut self.nodes, head_idx, Link::Observing(idx));
                self.tail = Some(idx);
                self.size = self.size + 1;
                self.order = Ghost(pre.order@.push(idx));
                proof {
                    let ord = pre.order@;
                    let len = ord.len() as int;
                    assert forall|k: int| 0 <= k < self.order@.len() implies #[trigger] self
                        .order_entry_wf(k) by {
                        if k < len {
                            assert(pre.order_entry_wf(k));
                            if k == 0 && len == 1 {
                            } else if k == 0 {
                                assert(ord[0] != ord[len - 1]);
                            } else if k == len - 1 {
                                assert(ord[0] != ord[len - 1]);
                            } else {
                                assert(ord[k] != ord[0]);
                                assert(ord[k] != ord[len - 1]);
                            }
                        }
                    }
                    assert forall|k: int| 0 <= k < self.free@.len() implies #[trigger] self
                        .free_entry_wf(k) by {
                        assert(pre.free_entry_wf(k));
                        assert(pre.order_entry_wf(0));
                        assert(pre.order_entry_wf(len - 1));
                    }
                    assert forall|i: usize|
                        i < self.nodes@.len() && (#[trigger] self.nodes@[i as int]) is Some
                        implies self.order@.contains(i) by {
                        if i == idx {
                            assert(self.order@[len] == idx);
                        } else {
                            assert(pre.nodes@[i as int] is Some);
                            assert(pre.order@.contains(i));
                            let k = choose|k: int| 0 <= k < len && ord[k] == i;
                            assert(self.order@[k] == i);
                        }
                    }
                    assert forall|i: usize|
                        i < self.nodes@.len() && (#[trigger] self.nodes@[i as int]) is None
                        implies self.free@.contains(i) by {
                        assert(pre.order_entry_wf(0));
                        assert(pre.order_entry_wf(len - 1));
                        assert(pre.nodes@[i as int] is None);
                        assert(pre.free@.contains(i));
                        let k = choose|k: int| 0 <= k < pre.free@.len() && pre.free@[k] == i;
                        if pre.free@.len() > 0 && idx == pre.free@.last() {
                            assert(k < pre.free@.len() - 1);
                            assert(self.free@[k] == i);
                        }
                    }
                    assert forall|k: int| 0 <= k < self@.len() implies self@[k] == pre@.push(t)[k]
                        by {
                        if k < len {
                            assert(pre.order_entry_wf(k));
                            assert(ord[k] != ord[0] || k == 0);
                            assert(ord[k] != ord[len - 1] || k == len - 1);
                        }
                    }
                    assert(self@ =~= pre@.push(t));
                }
            }
        }
    }

    /// Pops an element from one end of the list: the head when `pop_front`
    /// holds, the tail otherwise.  Returns nothing on an empty list.
    ///
    /// On the last node the handle simply lets go of both of its holders.
    /// At the front, the head node is taken out, its successor (reached
    /// through the head's owning `next` link) becomes the head, and the
    /// tail's wrap edge and the successor's `prev` are redirected.  At the
    /// back, the predecessor is reached through the tail's observing `prev`
    /// link and its `next` is rewritten to the observing wrap edge first —
    /// neutralizing the one chain-internal owning holder of the tail — and
    /// only then is the tail taken out and the head's `prev` redirected.
    fn pop(&mut self, pop_front: bool) -> (r: Option<T>)
        requires
            old(self).well_formed(),
        ensures
            final(self).well_formed(),
            old(self)@.len() == 0 ==> r is None && final(self)@ == old(self)@,
            old(self)@.len() > 0 && pop_front ==> r == (Some(old(self)@[0])) && final(self)@
                == old(self)@.remove(0),
            old(self)@.len() > 0 && !pop_front ==> r == (Some(old(self)@.last())) && final(self)@
                == old(self)@.drop_last(),
    {
        let ghost pre = *self;
        if self.size == 0 {
            return None;
        }
        let head_idx = self.head.unwrap();
        let tail_idx = self.tail.unwrap();
        proof {
            assert(pre.order_entry_wf(0));
            assert(pre.order_entry_wf(pre.order@.len() - 1));
        }
        if self.size == 1 {
            // The sole node: no links to rewrite, the handle lets go of it.
            let node = Self::take_node(&mut self.nodes, &mut self.free, head_idx);
            self.head = None;
            self.tail = None;
            self.size = 0;
            let ghost new_ord: Seq<usize> = Seq::empty();
            self.order = Ghost(new_ord);
            proof {
                assert forall|k: int| 0 <= k < self.free@.len() implies #[trigger] self
                    .free_entry_wf(k) by {
                    if k < pre.free@.len() {
                        assert(pre.free_entry_wf(k));
                    }
                }
                assert forall|i: usize|
                    i < self.nodes@.len() && (#[trigger] self.nodes@[i as int]) is Some implies
                    self.order@.contains(i) by {
                    assert(pre.nodes@[i as int] is Some);
                    assert(pre.order@.contains(i));
                    assert(false);
                }
                assert forall|i: usize|
                    i < self.nodes@.len() && (#[trigger] self.nodes@[i as int]) is None implies
                    self.free@.contains(i) by {
                    if i == head_idx {
                        assert(self.free@.last() == i);
                    } else {
                        assert(pre.nodes@[i as int] is None);
                        assert(pre.free@.contains(i));
                        let k = choose|k: int| 0 <= k < pre.free@.len() && pre.free@[k] == i;
                        assert(self.free@[k] == i);
                    }
                }
                assert forall|k1: int, k2: int|
                    0 <= k1 < k2 < self.free@.len() implies self.free@[k1] != self.free@[k2] by {
                    assert(pre.free_entry_wf(k1));
                    if k2 < pre.free@.len() {
                        assert(pre.free_entry_wf(k2));
                    }
                }
                assert(self@ =~= pre@.remove(0));
                assert(self@ =~= pre@.drop_last());
            }
            Some(node.data)
        } else {
            if pop_front {
                let node = Self::take_node(&mut self.nodes, &mut self.free, head_idx);
                let succ = match node.next {
                    Link::Owning(s) => s,
                    Link::Observing(_) => {
                        proof {
                            assert(false);
                        }
                        0
                    },
                };
                proof {
                    assert(pre.order_entry_wf(1));
                }
                Self::set_prev(&mut self.nodes, succ, Link::Observing(tail_idx));
                Self::set_next(&mut self.nodes, tail_idx, Link::Observing(succ));
                self.head = Some(succ);
                self.size = self.size - 1;
                self.order = Ghost(pre.order@.drop_first());
                proof {
                    let ord = pre.order@;
                    let len = ord.len() as int;
                    assert forall|k: int| 0 <= k < self.order@.len() implies #[trigger] self
                        .order_entry_wf(k) by {
                        assert(pre.order_entry_wf(k + 1));
                        if k + 1 == 1 && len == 2 {
                        } else if k + 1 == 1 {
                            assert(ord[1] != ord[len - 1]);
                        } else if k + 1 == len - 1 {
                            assert(ord[len - 1] != ord[1]);
                        } else {
                            assert(ord[k + 1] != ord[0]);
                            assert(ord[k + 1] != ord[1]);
                            assert(ord[k + 1] != ord[len - 1]);
                        }
                    }
                    assert forall|k: int| 0 <= k < self.free@.len() implies #[trigger] self
                        .free_entry_wf(k) by {
                        if k < pre.free@.len() {
                            assert(pre.free_entry_wf(k));
                            assert(pre.order_entry_wf(1));
                            assert(pre.order_entry_wf(len - 1));
                        } else {
                            assert(self.free@[k] == head_idx);
                        }
                    }
                    assert forall|i: usize|
                        i < self.nodes@.len() && (#[trigger] self.nodes@[i as int]) is Some
                        implies self.order@.contains(i) by {
                        assert(pre.nodes@[i as int] is Some);
                        assert(pre.order@.contains(i));
                        let k = choose|k: int| 0 <= k < len && ord[k] == i;
                        assert(k >= 1);
                        assert(self.order@[k - 1] == i);
                    }
                    assert forall|i: usize|
                        i < self.nodes@.len() && (#[trigger] self.nodes@[i as int]) is None
                        implies self.free@.contains(i) by {
                        if i == head_idx {
                            assert(self.free@.last() == i);
                        } else {
                            assert(pre.nodes@[i as int] is None);
                            assert(pre.free@.contains(i));
                            let k = choose|k: int| 0 <= k < pre.free@.len() && pre.free@[k] == i;
                            assert(self.free@[k] == i);
                        }
                    }
                    assert forall|k1: int, k2: int|
                        0 <= k1 < k2 < self.free@.len() implies self.free@[k1] != self.free@[k2]
                        by {
                        assert(pre.free_entry_wf(k1));
                        if k2 < pre.free@.len() {
                            assert(pre.free_entry_wf(k2));
                        }
                    }
                    assert forall|k: int| 0 <= k < self@.len() implies self@[k] == pre@.remove(
                        0,
                    )[k] by {
                        assert(pre.order_entry_wf(k + 1));
                        assert(ord[k + 1] != ord[0]);
                        assert(ord[k + 1] != ord[1] || k + 1 == 1);
                        assert(ord[k + 1] != ord[len - 1] || k + 1 == len - 1);
                    }
                    assert(self@ =~= pre@.remove(0));
                }
                Some(node.data)
            } else {
                let prev_link = Self::prev_of(&self.nodes, tail_idx);
                let pred = match prev_link {
                    Link::Observing(p) => p,
                    Link::Owning(_) => {
                        proof {
                            assert(false);
                        }
                        0
                    },
                };
                proof {
                    assert(pre.order_entry_wf(pre.order@.len() - 2));
                }
                Self::set_next(&mut self.nodes, pred, Link::Observing(head_idx));
                let node = Self::take_node(&mut self.nodes, &mut self.free, tail_idx);
                Self::set_prev(&mut self.nodes, head_idx, Link::Observing(pred));
                self.tail = Some(pred);
                self.size = self.size - 1;
                self.order = Ghost(pre.order@.drop_last());
                proof {
                    let ord = pre.order@;
                    let len = ord.len() as int;
                    assert forall|k: int| 0 <= k < self.order@.len() implies #[trigger] self
                        .order_entry_wf(k) by {
                        assert(pre.order_entry_wf(k));
                        if k == 0 && len == 2 {
                        } else if k == 0 {
                            assert(ord[0] != ord[len - 2]);
                        } else if k == len - 2 {
                            assert(ord[len - 2] != ord[0]);
                        } else {
                            assert(ord[k] != ord[0]);
                            assert(ord[k] != ord[len - 2]);
                            assert(ord[k] != ord[len - 1]);
                        }
                    }
                    assert forall|k: int| 0 <= k < self.free@.len() implies #[trigger] self
                        .free_entry_wf(k) by {
                        if k < pre.free@.len() {
                            assert(pre.free_entry_wf(k));
                            assert(pre.order_entry_wf(0));
                            assert(pre.order_entry_wf(len - 2));
                        } else {
                            assert(self.free@[k] == tail_idx);
                        }
                    }
                    assert forall|i: usize|
                        i < self.nodes@.len() && (#[trigger] self.nodes@[i as int]) is Some
                        implies self.order@.contains(i) by {
                        assert(pre.nodes@[i as int] is Some);
                        assert(pre.order@.contains(i));
                        let k = choose|k: int| 0 <= k < len && ord[k] == i;
                        assert(k < len - 1);
                        assert(self.order@[k] == i);
                    }
                    assert forall|i: usize|
                        i < self.nodes@.len() && (#[trigger] self.nodes@[i as int]) is None
                        implies self.free@.contains(i) by {
                        if i == tail_idx {
                            assert(self.free@.last() == i);
                        } else {
                            assert(pre.nodes@[i as int] is None);
                            assert(pre.free@.contains(i));
                            let k = choose|k: int| 0 <= k < pre.free@.len() && pre.free@[k] == i;
                            assert(self.free@[k] == i);
                        }
                    }
                    assert forall|k1: int, k2: int|
                        0 <= k1 < k2 < self.free@.len() implies self.free@[k1] != self.free@[k2]
                        by {
                        assert(pre.free_entry_wf(k1));
                        if k2 < pre.free@.len() {
                            assert(pre.free_entry_wf(k2));
                        }
                    }
                    assert forall|k: int|
                        0 <= k < self@.len() implies self@[k] == pre@.drop_last()[k] by {
                        assert(pre.order_entry_wf(k));
                        assert(ord[k] != ord[len - 1]);
                        assert(ord[k] != ord[0] || k == 0);
                        assert(ord[k] != ord[len - 2] || k == len - 2);
                    }
                    assert(self@ =~= pre@.drop_last());
                }
                Some(node.data)
            }
        }
    }

    /// Removes and returns the element at the front of the list, or
    /// nothing if the list is empty.
    pub fn pop_front(&mut self) -> (r: Option<T>)
        requires
            old(self).well_formed(),
        ensures
            final(self).well_formed(),
            old(self)@.len() == 0 ==> r is None && final(self)@ == old(self)@,
            old(self)@.len() > 0 ==> r == (Some(old(self)@[0])) && final(self)@ == old(
                self,
            )@.remove(0),
            final(self)@ == step(old(self)@, ListOp::PopFront),
            r == step_result(old(self)@, ListOp::PopFront),
    {
        self.pop(true)
    }

    /// Removes and returns the element at the back of the list, or nothing
    /// if the list is empty.
    pub fn pop_back(&mut self) -> (r: Option<T>)
        requires
            old(self).well_formed(),
        ensures
            final(self).well_formed(),
            old(self)@.len() == 0 ==> r is None && final(self)@ == old(self)@,
            old(self)@.len() > 0 ==> r == (Some(old(self)@.last())) && final(self)@ == old(
                self,
            )@.drop_last(),
            final(self)@ == step(old(self)@, ListOp::PopBack),
            r == step_result(old(self)@, ListOp::PopBack),
    {
        self.pop(false)
    }

    /// Borrows the payload of the node at one end of the list: the head
    /// when `peek_front` holds, the tail otherwise.
    fn peek(&self, peek_front: bool) -> (r: Option<&T>)
        requires
            self.well_formed(),
        ensures
            self@.len() == 0 ==> r is None,
            self@.len() > 0 && peek_front ==> (r matches Some(v) && *v == self@[0]),
            self@.len() > 0 && !peek_front ==> (r matches Some(v) && *v == self@.last()),
    {
        if self.is_empty() {
            return None;
        }
        proof {
            assert(self.order_entry_wf(0));
            assert(self.order_entry_wf(self.order@.len() - 1));
        }
        let idx = if peek_front {
            self.head.unwrap()
        } else {
            self.tail.unwrap()
        };
        match &self.nodes[idx] {
            Some(node) => Some(&node.data),
            None => {
                proof {
                    assert(false);
                }
                None
            },
        }
    }

    /// Returns a read-only borrow of the first element, or nothing if the
    /// list is empty.  The borrow cannot outlive a later mutating call.
    pub fn peek_front(&self) -> (r: Option<&T>)
        requires
            self.well_formed(),
        ensures
            self@.len() == 0 ==> r is None,
            self@.len() > 0 ==> (r matches Some(v) && *v == self@[0]),
    {
        self.peek(true)
    }

    /// Returns a read-only borrow of the last element, or nothing if the
    /// list is empty.  The borrow cannot outlive a later mutating call.
    pub fn peek_back(&self) -> (r: Option<&T>)
        requires
            self.well_formed(),
        ensures
            self@.len() == 0 ==> r is None,
            self@.len() > 0 ==> (r matches Some(v) && *v == self@.last()),
    {
        self.peek(false)
    }

    /// Walks `steps` owning `next` links from the head and returns the slot
    /// reached: the slot of the node at list position `steps`.
    fn walk(&self, steps: usize) -> (idx: usize)
        requires
            self.well_formed(),
            steps < self@.len(),
        ensures
            idx == self.order@[steps as int],
    {
        proof {
            assert(self.order_entry_wf(0));
        }
        let mut cur = self.head.unwrap();
        let mut count: usize = 0;
        while count < steps
            invariant
                self.well_formed(),
                count <= steps,
                steps < self@.len(),
                cur == self.order@[count as int],
            decreases steps - count,
        {
            proof {
                assert(self.order_entry_wf(count as int));
            }
            let next = Self::next_of(&self.nodes, cur);
            match next {
                Link::Owning(s) => {
                    cur = s;
                },
                Link::Observing(_) => {
                    proof {
                        assert(false);
                    }
                },
            }
            count = count + 1;
        }
        cur
    }

    /// Pushes an element to the front of the list, making it the new head.
    pub fn push_front(&mut self, t: T)
        requires
            old(self).well_formed(),
            old(self)@.len() < usize::MAX,
        ensures
            final(self).well_formed(),
            final(self)@ == old(self)@.insert(0, t),
            final(self)@ == step(old(self)@, ListOp::PushFront(t)),
    {
        self.push(t, true);
    }

    /// Pushes an element to the back of the list, making it the new tail.
    pub fn push_back(&mut self, t: T)
        requires
            old(self).well_formed(),
            old(self)@.len() < usize::MAX,
        ensures
            final(self).well_formed(),
            final(self)@ == old(self)@.push(t),
            final(self)@ == step(old(self)@, ListOp::PushBack(t)),
    {
        self.push(t, false);
    }

    /// Inserts an element so that it becomes the one at position `index`,
    /// shifting the elements from that position towards the back.  Position
    /// `0` is the front and position `size()` is just past the tail, so both
    /// ends work; an `index` beyond `size()` is silently ignored and the
    /// list is left unchanged.
    ///
    /// In the middle, the walk from the head reaches the predecessor, whose
    /// owning `next` link is redirected to the new node; the new node's
    /// `next` becomes an owning link to the successor and the successor's
    /// `prev` observes the new node.
    #[verifier::rlimit(50)]
    pub fn insert_at(&mut self, index: usize, val: T)
        requires
            old(self).well_formed(),
            old(self)@.len() < usize::MAX,
        ensures
            final(self).well_formed(),
            index <= old(self)@.len() ==> final(self)@ == old(self)@.insert(index as int, val),
            index > old(self)@.len() ==> final(self)@ == old(self)@,
    {
        if index == 0 {
            self.push_front(val);
            return ;
        }
        if index == self.size {
            self.push_back(val);
            return ;
        }
        if index > self.size {
            // Out of range: the insertion is silently ignored.
            return ;
        }
        let ghost pre = *self;
        let pred = self.walk(index - 1);
        proof {
            assert(pre.order_entry_wf(index - 1));
            assert(pre.order_entry_wf(index as int));
        }
        let succ = match Self::next_of(&self.nodes, pred) {
            Link::Owning(s) => s,
            Link::Observing(_) => {
                proof {
                    assert(false);
                }
                0
            },
        };
        let node = Node { next: Link::Owning(succ), prev: Link::Observing(pred), data: val };
        proof {
            lemma_free_entries(pre);
        }
        let idx = Self::place_node(&mut self.nodes, &mut self.free, node);
        proof {
            lemma_placed_slot_fresh(pre, idx as int);
        }
        Self::set_next(&mut self.nodes, pred, Link::Owning(idx));
        Self::set_prev(&mut self.nodes, succ, Link::Observing(idx));
        self.size = self.size + 1;
        self.order = Ghost(pre.order@.insert(index as int, idx));
        proof {
            let ord = pre.order@;
            let len = ord.len() as int;
            let pos = index as int;
            ord.insert_ensures(pos, idx);
            assert forall|k: int| 0 <= k < self.order@.len() implies #[trigger] self
                .order_entry_wf(k) by {
                if k < pos {
                    assert(pre.order_entry_wf(k));
                    assert(ord[k] != ord[pos - 1] || k == pos - 1);
                    assert(ord[k] != ord[pos]);
                    if k == 0 {
                        assert(ord[len - 1] != ord[pos - 1] || len - 1 == pos - 1);
                        assert(ord[len - 1] != ord[pos] || len - 1 == pos);
                    }
                } else if k > pos {
                    assert(pre.order_entry_wf(k - 1));
                    assert(ord[k - 1] != ord[pos - 1]);
                    assert(ord[k - 1] != ord[pos] || k - 1 == pos);
                }
            }
            assert forall|k: int| 0 <= k < self.free@.len() implies #[trigger] self.free_entry_wf(
                k,
            ) by {
                assert(pre.free_entry_wf(k));
                assert(pre.order_entry_wf(pos - 1));
                assert(pre.order_entry_wf(pos));
            }
            assert forall|i: usize|
                i < self.nodes@.len() && (#[trigger] self.nodes@[i as int]) is Some implies self
                .order@.contains(i) by {
                if i == idx {
                    assert(self.order@[pos] == i);
                } else {
                    assert(pre.nodes@[i as int] is Some);
                    assert(pre.order@.contains(i));
                    let k = choose|k: int| 0 <= k < len && ord[k] == i;
                    if k < pos {
                        assert(self.order@[k] == i);
                    } else {
                        assert(self.order@[k + 1] == i);
                    }
                }
            }
            assert forall|i: usize|
                i < self.nodes@.len() && (#[trigger] self.nodes@[i as int]) is None implies self
                .free@.contains(i) by {
                assert(pre.order_entry_wf(pos - 1));
                assert(pre.order_entry_wf(pos));
                assert(pre.nodes@[i as int] is None);
                assert(pre.free@.contains(i));
                let k = choose|k: int| 0 <= k < pre.free@.len() && pre.free@[k] == i;
                if pre.free@.len() > 0 && idx == pre.free@.last() {
                    assert(k < pre.free@.len() - 1);
                    assert(self.free@[k] == i);
                }
            }
            assert(self.order@[0] == ord[0]);
            assert(self.order@.last() == ord.last());
            pre@.insert_ensures(pos, val);
            assert forall|k: int| 0 <= k < self@.len() implies self@[k] == pre@.insert(pos, val)[k]
                by {
                if k < pos {
                    assert(pre.order_entry_wf(k));
                    assert(ord[k] != ord[pos - 1] || k == pos - 1);
                    assert(ord[k] != ord[pos]);
                } else if k > pos {
                    assert(pre.order_entry_wf(k - 1));
                    assert(ord[k - 1] != ord[pos - 1]);
                    assert(ord[k - 1] != ord[pos] || k - 1 == pos);
                }
            }
            assert(self@ =~= pre@.insert(pos, val));
        }
    }

    /// Removes and returns the element at position `index`, shifting the
    /// elements behind it towards the front.  Returns nothing, and leaves
    /// the list unchanged, when `index` is not a valid position.
    ///
    /// In the middle, the walk from the head reaches the predecessor, whose
    /// owning `next` link is redirected past the target straight to the
    /// successor — dropping the target's only owning holder — and the
    /// successor's `prev` observes the predecessor; the target is then
    /// taken out of the arena.
    #[verifier::rlimit(50)]
    pub fn remove_at(&mut self, index: usize) -> (r: Option<T>)
        requires
            old(self).well_formed(),
        ensures
            final(self).well_formed(),
            index < old(self)@.len() ==> r == (Some(old(self)@[index as int])) && final(self)@
                == old(self)@.remove(index as int),
            index >= old(self)@.len() ==> r is None && final(self)@ == old(self)@,
    {
        let ghost pre = *self;
        if index >= self.size {
            return None;
        }
        if index == 0 {
            return self.pop_front();
        }
        if index == self.size - 1 {
            let r = self.pop_back();
            proof {
                assert(pre@.drop_last() =~= pre@.remove(index as int));
            }
            return r;
        }
        let pred = self.walk(index - 1);
        proof {
            assert(pre.order_entry_wf(index - 1));
            assert(pre.order_entry_wf(index as int));
            assert(pre.order_entry_wf(index + 1));
        }
        let target = match Self::next_of(&self.nodes, pred) {
            Link::Owning(x) => x,
            Link::Observing(_) => {
                proof {
                    assert(false);
                }
                0
            },
        };
        let succ = match Self::next_of(&self.nodes, target) {
            Link::Owning(x) => x,
            Link::Observing(_) => {
                proof {
                    assert(false);
                }
                0
            },
        };
        Self::set_next(&mut self.nodes, pred, Link::Owning(succ));
        Self::set_prev(&mut self.nodes, succ, Link::Observing(pred));
        let node = Self::take_node(&mut self.nodes, &mut self.free, target);
        self.size = self.size - 1;
        self.order = Ghost(pre.order@.remove(index as int));
        proof {
            let ord = pre.order@;
            let len = ord.len() as int;
            let pos = index as int;
            ord.remove_ensures(pos);
            assert forall|k: int| 0 <= k < self.order@.len() implies #[trigger] self
                .order_entry_wf(k) by {
                if k < pos {
                    assert(pre.order_entry_wf(k));
                    assert(ord[k] != ord[pos - 1] || k == pos - 1);
                    assert(ord[k] != ord[pos]);
                    assert(ord[k] != ord[pos + 1] || k == pos + 1);
                    if k == 0 {
                        assert(ord[len - 1] != ord[pos - 1] || len - 1 == pos - 1);
                        assert(ord[len - 1] != ord[pos]);
                        assert(ord[len - 1] != ord[pos + 1] || len - 1 == pos + 1);
                    }
                } else {
                    assert(pre.order_entry_wf(k + 1));
                    assert(ord[k + 1] != ord[pos - 1]);
                    assert(ord[k + 1] != ord[pos]);
                    assert(ord[k + 1] != ord[pos + 1] || k + 1 == pos + 1);
                }
            }
            assert forall|k: int| 0 <= k < self.free@.len() implies #[trigger] self.free_entry_wf(
                k,
            ) by {
                if k < pre.free@.len() {
                    assert(pre.free_entry_wf(k));
                    assert(pre.order_entry_wf(pos - 1));
                    assert(pre.order_entry_wf(pos + 1));
                } else {
                    assert(self.free@[k] == target);
                }
            }
            assert forall|k1: int, k2: int|
                0 <= k1 < k2 < self.free@.len() implies self.free@[k1] != self.free@[k2] by {
                assert(pre.free_entry_wf(k1));
                if k2 < pre.free@.len() {
                    assert(pre.free_entry_wf(k2));
                }
            }
            assert forall|i: usize|
                i < self.nodes@.len() && (#[trigger] self.nodes@[i as int]) is Some implies self
                .order@.contains(i) by {
                assert(pre.nodes@[i as int] is Some);
                assert(pre.order@.contains(i));
                let k = choose|k: int| 0 <= k < len && ord[k] == i;
                assert(k != pos);
                if k < pos {
                    assert(self.order@[k] == i);
                } else {
                    assert(self.order@[k - 1] == i);
                }
            }
            assert forall|i: usize|
                i < self.nodes@.len() && (#[trigger] self.nodes@[i as int]) is None implies self
                .free@.contains(i) by {
                if i == target {
                    assert(self.free@.last() == i);
                } else {
                    assert(pre.nodes@[i as int] is None);
                    assert(pre.free@.contains(i));
                    let k = choose|k: int| 0 <= k < pre.free@.len() && pre.free@[k] == i;
                    assert(self.free@[k] == i);
                }
            }
            assert(self.order@[0] == ord[0]);
            assert(self.order@.last() == ord.last());
            pre@.remove_ensures(pos);
            assert forall|k: int| 0 <= k < self@.len() implies self@[k] == pre@.remove(pos)[k] by {
                if k < pos {
                    assert(pre.order_entry_wf(k));
                    assert(ord[k] != ord[pos - 1] || k == pos - 1);
                    assert(ord[k] != ord[pos]);
                    assert(ord[k] != ord[pos + 1] || k == pos + 1);
                } else {
                    assert(pre.order_entry_wf(k + 1));
                    assert(ord[k + 1] != ord[pos - 1]);
                    assert(ord[k + 1] != ord[pos]);
                    assert(ord[k + 1] != ord[pos + 1] || k + 1 == pos + 1);
                }
            }
            assert(self@ =~= pre@.remove(pos));
        }
        Some(node.data)
    }

    /// Empties the list by popping from the front until nothing is left.
    ///
    /// Each pop unwinds one owning link, so every node is released one by
    /// one, in order; the observing wrap edge never has to be broken,
    /// because it never owns.
    pub fn clear(&mut self)
        requires
            old(self).well_formed(),
        ensures
            final(self).well_formed(),
            final(self)@ == Seq::<T>::empty(),
    {
        while self.size > 0
            invariant
                self.well_formed(),
            decreases self@.len(),
        {
            self.pop_front();
        }
        proof {
            assert(self@ =~= Seq::<T>::empty());
        }
    }
}

impl<T: Copy> CdlList<T> {
    /// Returns the contents of the list, head first: a read-only walk from
    /// the head that follows `next` exactly `size()` times and never crosses
    /// the observing wrap edge as if it were a further owning step.
    pub fn to_vec(&self) -> (r: Vec<T>)
        requires
            self.well_formed(),
        ensures
            r@ == self@,
    {
        let mut r: Vec<T> = Vec::new();
        if self.size == 0 {
            proof {
                assert(r@ =~= self@);
            }
            return r;
        }
        let mut cur = self.head.unwrap();
        let mut count: usize = 0;
        while count < self.size
            invariant
                self.well_formed(),
                count <= self@.len(),
                r@.len() == count,
                forall|k: int| 0 <= k < count ==> r@[k] == self@[k],
                count < self@.len() ==> cur == self.order@[count as int],
            decreases self@.len() - count,
        {
            proof {
                assert(self.order_entry_wf(count as int));
            }
            match &self.nodes[cur] {
                Some(node) => {
                    r.push(node.data);
                },
                None => {
                    proof {
                        assert(false);
                    }
                },
            }
            let next = Self::next_of(&self.nodes, cur);
            match next {
                Link::Owning(s) => {
                    cur = s;
                },
                Link::Observing(_) => {
                    // The wrap edge: reached only on the final step.
                    proof {
                        assert(count == self@.len() - 1);
                    }
                },
            }
            count = count + 1;
        }
        proof {
            assert(r@ =~= self@);
        }
        r
    }
}

impl<T> CdlList<T> {
    /// Whether arena slot `i` holds a live node.
    pub closed spec fn live_slot(&self, i: int) -> bool {
        0 <= i < self.nodes@.len() && self.nodes@[i] is Some
    }

    /// Whether the `next` link of the node in slot `i` is observing.
    pub closed spec fn next_is_observing(&self, i: int) -> bool {
        self.nodes@[i]->0.next is Observing
    }

    /// Whether the `prev` link of the node in slot `i` is observing.
    pub closed spec fn prev_is_observing(&self, i: int) -> bool {
        self.nodes@[i]->0.prev is Observing
    }

    /// The slot that the `next` link of the node in slot `i` targets.
    pub closed spec fn next_target(&self, i: int) -> int {
        match self.nodes@[i]->0.next {
            Link::Owning(j) => j as int,
            Link::Observing(j) => j as int,
        }
    }

    /// The slot of the head node (meaningful only on a non-empty list).
    pub closed spec fn head_slot(&self) -> int {
        self.head->0 as int
    }

    /// The slot of the tail node (meaningful only on a non-empty list).
    pub closed spec fn tail_slot(&self) -> int {
        self.tail->0 as int
    }

    /// The slot reached from the head after `k` steps along `next` links.
    pub closed spec fn chain_slot(&self, k: nat) -> int
        decreases k,
    {
        if k == 0 {
            self.head_slot()
        } else {
            self.next_target(self.chain_slot((k - 1) as nat))
        }
    }

    /// The walk from the head along `next` links, one slot per element.
    pub closed spec fn chain(&self) -> Seq<int> {
        Seq::new(self@.len(), |k: int| self.chain_slot(k as nat))
    }

    /// Law (link shape): in every well-formed list, every live node's
    /// `prev` link is observing; a live node's `next` link is observing
    /// exactly when the node is the tail, and that one observing `next`
    /// targets the head; and the walk from the head along `next` links
    /// visits every live node exactly once, stepping only over owning links
    /// until it ends at the tail.
    pub proof fn lemma_link_shape(&self)
        requires
            self.well_formed(),
        ensures
            forall|i: int| #[trigger] self.live_slot(i) ==> self.prev_is_observing(i),
            forall|i: int| #[trigger]
                self.live_slot(i) ==> (self.next_is_observing(i) <==> (self@.len() > 0 && i
                    == self.tail_slot())),
            self@.len() > 0 ==> self.next_target(self.tail_slot()) == self.head_slot(),
            self.chain().len() == self@.len(),
            forall|k: int| 0 <= k < self.chain().len() ==> self.live_slot(#[trigger] self.chain()[k]),
            forall|k1: int, k2: int|
                0 <= k1 < k2 < self.chain().len() ==> self.chain()[k1] != self.chain()[k2],
            forall|i: int| #[trigger] self.live_slot(i) ==> self.chain().contains(i),
            forall|k: int|
                0 <= k < self.chain().len() - 1 ==> !self.next_is_observing(
                    #[trigger] self.chain()[k],
                ),
            self@.len() > 0 ==> self.chain().first() == self.head_slot() && self.chain().last()
                == self.tail_slot(),
    {
        let ord = self.order@;
        let len = ord.len() as int;
        assert(self.nodes@.len() <= usize::MAX) by {
            assert(self.nodes.len() == self.nodes@.len());
        }
        assert forall|k: int| 0 <= k < len implies #[trigger] self.chain()[k] == ord[k] as int by {
            self.lemma_chain_is_order(k);
        }
        assert forall|i: int| #[trigger] self.live_slot(i) implies self.chain().contains(i)
            && self.prev_is_observing(i) && (self.next_is_observing(i) <==> (self@.len() > 0 && i
            == self.tail_slot())) by {
            assert(self.nodes@[i] is Some);
            assert(ord.contains(i as usize));
            let k = choose|k: int| 0 <= k < len && ord[k] == i as usize;
            assert(self.order_entry_wf(k));
            assert(self.chain()[k] == i);
            if k < len - 1 {
                assert(!self.next_is_observing(i));
                assert(self.order_entry_wf(len - 1));
                assert(ord[k] != ord[len - 1]);
            }
        }
        if len > 0 {
            assert(self.order_entry_wf(len - 1));
            assert(self.order_entry_wf(0));
        }
        assert forall|k: int|
            0 <= k < self.chain().len() - 1 implies !self.next_is_observing(
            #[trigger] self.chain()[k],
        ) by {
            assert(self.order_entry_wf(k));
        }
        assert forall|k: int| 0 <= k < self.chain().len() implies self.live_slot(
            #[trigger] self.chain()[k],
        ) by {
            assert(self.order_entry_wf(k));
        }
    }

    /// The walk from the head follows the ghost order: after `k` owning
    /// steps it stands on the slot of the node at list position `k`.
    proof fn lemma_chain_is_order(&self, k: int)
        requires
            self.well_formed(),
            0 <= k < self.order@.len(),
        ensures
            self.chain_slot(k as nat) == self.order@[k] as int,
        decreases k,
    {
        if k == 0 {
        } else {
            self.lemma_chain_is_order(k - 1);
            assert(self.order_entry_wf(k - 1));
        }
    }
}

/// Law (insertion then removal): inserting a value at a valid position and
/// removing at the same position restores the original contents — so
/// `insert_at(i, v)` followed by `remove_at(i)` is the identity on the
/// list's view, same elements and same size, for any position up to the
/// length.
pub proof fn lemma_insert_then_remove<T>(s: Seq<T>, i: int, v: T)
    requires
        0 <= i <= s.len(),
    ensures
        s.insert(i, v).remove(i) == s,
{
    s.insert_ensures(i, v);
    s.insert(i, v).remove_ensures(i);
    assert(s.insert(i, v).remove(i) =~= s);
}

/// In a well-formed list, every free-list entry names an empty slot of the
/// arena (the shape `place_node` asks for).
proof fn lemma_free_entries<T>(l: CdlList<T>)
    requires
        l.well_formed(),
    ensures
        forall|k: int|
            0 <= k < l.free@.len() ==> (#[trigger] l.free@[k]) < l.nodes@.len()
                && l.nodes@[l.free@[k] as int] is None,
{
    assert forall|k: int|
        0 <= k < l.free@.len() implies (#[trigger] l.free@[k]) < l.nodes@.len()
        && l.nodes@[l.free@[k] as int] is None by {
        assert(l.free_entry_wf(k));
    }
}

/// A slot that is empty (or past the end of the arena) in a well-formed
/// list is not named by any position of its order.
proof fn lemma_placed_slot_fresh<T>(pre: CdlList<T>, idx: int)
    requires
        pre.well_formed(),
        0 <= idx,
        idx < pre.nodes@.len() ==> pre.nodes@[idx] is None,
    ensures
        forall|k: int| 0 <= k < pre.order@.len() ==> pre.order@[k] as int != idx,
{
    assert forall|k: int| 0 <= k < pre.order@.len() implies pre.order@[k] as int != idx by {
        assert(pre.order_entry_wf(k));
    }
}


} // verus!
