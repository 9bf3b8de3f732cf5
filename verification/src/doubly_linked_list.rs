//! Insertion-ordered doubly-linked list with O(1) append, O(1) removal of an
//! arbitrary node through a stable handle, and O(1) access to both ends.
//!
//! The list is backed by an arena of nodes indexed by small integers; `prev`
//! and `next` are indices (or `None`), and a free list recycles the cells of
//! removed nodes. A handle returned by `push_back` is the arena index of the
//! new node; it stays valid until the node is removed.

use vstd::prelude::*;

verus! {

/// One arena cell. A cell that currently belongs to the list holds `Some`
/// value together with the arena indices of its neighbours.
pub struct Node<T> {
    value: Option<T>,
    prev: Option<usize>,
    next: Option<usize>,
}

/// A doubly-linked list of values of type `T`, backed by an arena.
pub struct DoublyLinkedList<T> {
    nodes: Vec<Node<T>>,
    head: Option<usize>,
    tail: Option<usize>,
    free: Vec<usize>,
    length: usize,
    order: Ghost<Seq<usize>>,
}

impl<T> View for DoublyLinkedList<T> {
    type V = Seq<T>;

    /// The values held by the list, oldest (head) first.
    closed spec fn view(&self) -> Seq<T> {
        Seq::new(self.order@.len(), |p: int| self.nodes@[self.order@[p] as int].value->0)
    }
}

impl<T> DoublyLinkedList<T> {
    /// The handles of the live nodes, in list order (parallel to `self@`).
    pub closed spec fn handles(&self) -> Seq<usize> {
        self.order@
    }

    /// Structural well-formedness: the ghost order sequence names distinct,
    /// in-bounds arena cells; the links of each node match its neighbours in
    /// the order; head and tail are the first and last entries; the free list
    /// holds distinct cells disjoint from the live ones.
    pub closed spec fn wf(&self) -> bool {
        let o = self.order@;
        &&& self.length == o.len()
        &&& forall|p: int| 0 <= p < o.len() ==> (#[trigger] o[p]) < self.nodes@.len()
        &&& forall|p: int, q: int|
            0 <= p < o.len() && 0 <= q < o.len() && p != q ==> o[p] != o[q]
        &&& forall|p: int|
            0 <= p < o.len() ==> (#[trigger] self.nodes@[o[p] as int].value) is Some
        &&& self.head == (if o.len() == 0 { None::<usize> } else { Some(o[0]) })
        &&& self.tail == (if o.len() == 0 { None::<usize> } else { Some(o[o.len() - 1]) })
        &&& forall|p: int|
            0 <= p < o.len() ==> (#[trigger] self.nodes@[o[p] as int].prev) == (if p == 0 {
                None::<usize>
            } else {
                Some(o[p - 1])
            })
        &&& forall|p: int|
            0 <= p < o.len() ==> (#[trigger] self.nodes@[o[p] as int].next) == (if p == o.len()
                - 1 {
                None::<usize>
            } else {
                Some(o[p + 1])
            })
        &&& forall|j: int| 0 <= j < self.free@.len() ==> (#[trigger] self.free@[j])
            < self.nodes@.len()
        &&& forall|j: int, p: int|
            0 <= j < self.free@.len() && 0 <= p < o.len() ==> #[trigger] self.free@[j]
                != #[trigger] o[p]
        &&& forall|j: int, l: int|
            0 <= j < self.free@.len() && 0 <= l < self.free@.len() && j != l ==> self.free@[j]
                != self.free@[l]
    }

    /// Facts every well-formed list provides about its handle sequence: it
    /// is parallel to the value sequence and holds no handle twice.
    pub proof fn lemma_handles(&self)
        requires
            self.wf(),
        ensures
            self.handles().len() == self@.len(),
            forall|p: int, q: int|
                0 <= p < self@.len() && 0 <= q < self@.len() && p != q ==> self.handles()[p]
                    != self.handles()[q],
    {
    }

    /// Creates an empty list.
    pub fn new() -> (l: Self)
        ensures
            l.wf(),
            l@ == Seq::<T>::empty(),
            l.handles() == Seq::<usize>::empty(),
    {
        let l = Self {
            nodes: Vec::new(),
            head: None,
            tail: None,
            free: Vec::new(),
            length: 0,
            order: Ghost(Seq::empty()),
        };
        proof {
            assert(l@ =~= Seq::<T>::empty());
        }
        l
    }

    /// Number of values in the list.
    pub fn len(&self) -> (n: usize)
        requires
            self.wf(),
        ensures
            n == self@.len(),
    {
        self.length
    }

    /// Appends `value` at the tail and returns a fresh stable handle to the
    /// new node, usable with `remove`.
    pub fn push_back(&mut self, value: T) -> (handle: usize)
        requires
            old(self).wf(),
            old(self)@.len() < usize::MAX,
        ensures
            final(self).wf(),
            final(self)@ == old(self)@.push(value),
            final(self).handles() == old(self).handles().push(handle),
            !old(self).handles().contains(handle),
    {
        let ghost o0 = self.order@;
        let old_tail = self.tail;
        let idx: usize;
        match self.free.pop() {
            Some(f) => {
                idx = f;
                let cell = &mut self.nodes[f];
                cell.value = Some(value);
                cell.prev = old_tail;
                cell.next = None;
            },
            None => {
                idx = self.nodes.len();
                self.nodes.push(Node { value: Some(value), prev: old_tail, next: None });
            },
        }
        proof {
            assert(!o0.contains(idx)) by {
                assert(forall|p: int| 0 <= p < o0.len() ==> o0[p] != idx);
            }
        }
        match old_tail {
            Some(t) => {
                let cell = &mut self.nodes[t];
                cell.next = Some(idx);
            },
            None => {
                self.head = Some(idx);
            },
        }
        self.tail = Some(idx);
        self.length = self.length + 1;
        self.order = Ghost(o0.push(idx));
        proof {
            assert(self@ =~= old(self)@.push(value));
        }
        idx
    }

    /// Detaches the head node and returns its value; `None` on an empty list.
    pub fn pop_front(&mut self) -> (r: Option<T>)
        requires
            old(self).wf(),
        ensures
            final(self).wf(),
            old(self)@.len() == 0 ==> r is None && final(self)@ == old(self)@
                && final(self).handles() == old(self).handles(),
            old(self)@.len() > 0 ==> r == Some(old(self)@[0]) && final(self)@
                == old(self)@.drop_first() && final(self).handles()
                == old(self).handles().drop_first(),
    {
        let ghost o0 = self.order@;
        match self.head {
            None => None,
            Some(h) => {
                let cell = &mut self.nodes[h];
                let v = cell.value.take();
                let nxt = cell.next;
                cell.prev = None;
                cell.next = None;
                match nxt {
                    Some(nx) => {
                        proof {
                            assert(nx == o0[1] && nx < self.nodes@.len());
                        }
                        let cell2 = &mut self.nodes[nx];
                        cell2.prev = None;
                    },
                    None => {
                        self.tail = None;
                    },
                }
                self.head = nxt;
                self.free.push(h);
                self.length = self.length - 1;
                self.order = Ghost(o0.drop_first());
                proof {
                    assert(self@ =~= old(self)@.drop_first());
                }
                v
            },
        }
    }

    /// Splices out the node named by `handle` (head, tail, middle, or sole
    /// element alike). The handle must be one previously returned by
    /// `push_back` and not yet removed.
    pub fn remove(&mut self, handle: usize)
        requires
            old(self).wf(),
            old(self).handles().contains(handle),
        ensures
            final(self).wf(),
            final(self)@ == old(self)@.remove(old(self).handles().index_of(handle)),
            final(self).handles() == old(self).handles().remove(
                old(self).handles().index_of(handle),
            ),
    {
        let ghost o0 = self.order@;
        let ghost p = o0.index_of(handle);
        proof {
            assert(0 <= p < o0.len() && o0[p] == handle);
        }
        let cell = &mut self.nodes[handle];
        let _removed = cell.value.take();
        let pr = cell.prev;
        let nx = cell.next;
        cell.prev = None;
        cell.next = None;
        match pr {
            Some(q) => {
                proof {
                    assert(q == o0[p - 1] && q < self.nodes@.len() && q != handle);
                }
                let cell2 = &mut self.nodes[q];
                cell2.next = nx;
            },
            None => {
                self.head = nx;
            },
        }
        match nx {
            Some(q) => {
                proof {
                    assert(q == o0[p + 1] && q < self.nodes@.len() && q != handle);
                    if pr is Some {
                        assert(q != pr->0);
                    }
                }
                let cell2 = &mut self.nodes[q];
                cell2.prev = pr;
            },
            None => {
                self.tail = pr;
            },
        }
        self.free.push(handle);
        self.length = self.length - 1;
        self.order = Ghost(o0.remove(p));
        proof {
            let o1 = self.order@;
            let n = o0.len();
            assert forall|q: int| 0 <= q < o1.len() implies (#[trigger] o1[q]) == (if q < p {
                o0[q]
            } else {
                o0[q + 1]
            }) by {}
            assert forall|q: int| 0 <= q < o1.len() implies o1[q] != handle by {
                if q < p {
                    assert(o0[q] != o0[p]);
                } else {
                    assert(o0[q + 1] != o0[p]);
                }
            }
            assert forall|q: int|
                0 <= q < o1.len() implies (#[trigger] self.nodes@[o1[q] as int].prev) == (if q
                == 0 {
                None::<usize>
            } else {
                Some(o1[q - 1])
            }) by {
                if q == p {
                    assert(self.nodes@[o1[q] as int].prev == pr);
                } else if q < p {
                    assert(o0[q] != o0[p + 1] || p + 1 >= n);
                } else {
                    assert(o0[q + 1] != o0[p + 1]);
                }
            }
            assert forall|q: int|
                0 <= q < o1.len() implies (#[trigger] self.nodes@[o1[q] as int].next) == (if q
                == o1.len() - 1 {
                None::<usize>
            } else {
                Some(o1[q + 1])
            }) by {
                if q == p - 1 {
                    assert(self.nodes@[o1[q] as int].next == nx);
                } else if q < p - 1 {
                    assert(o0[q] != o0[p - 1]);
                } else {
                    assert(o0[q + 1] != o0[p - 1] || p == 0);
                }
            }
            assert(self@ =~= old(self)@.remove(p));
        }
    }

    /// Borrows the value at the head (the oldest value), if any.
    pub fn front(&self) -> (r: Option<&T>)
        requires
            self.wf(),
        ensures
            match r {
                None => self@.len() == 0,
                Some(v) => self@.len() > 0 && *v == self@[0],
            },
    {
        match self.head {
            None => None,
            Some(h) => self.nodes[h].value.as_ref(),
        }
    }

    /// Borrows the value at the tail (the newest value), if any.
    pub fn back(&self) -> (r: Option<&T>)
        requires
            self.wf(),
        ensures
            match r {
                None => self@.len() == 0,
                Some(v) => self@.len() > 0 && *v == self@[self@.len() - 1],
            },
    {
        match self.tail {
            None => None,
            Some(h) => self.nodes[h].value.as_ref(),
        }
    }
}

} // verus!
