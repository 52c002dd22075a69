//! The per-thread scheduling queue: a doubly-linked list of armed events
//! whose nodes live in a handle table, with a depth-first insertion point.
use vstd::prelude::*;
use crate::handle_table::{Handle, HandleTable};

verus! {

/// A node of the queue. The head sentinel carries no event.
#[derive(Clone, Copy)]
pub struct EventNode<E> {
    pub event: Option<E>,
    pub prev: Option<Handle>,
    pub next: Option<Handle>,
}

pub struct EventQueue<E> {
    events: HandleTable<EventNode<E>>,
    head: Handle,
    tail: Handle,
    depth_first_insertion_point: Handle,
    order: Ghost<Seq<usize>>,
    insertion_pos: Ghost<nat>,
}

impl<E: Copy> EventQueue<E> {
    closed spec fn node(&self, h: usize) -> EventNode<E> {
        self.events@[h]
    }

    closed spec fn handle_at(&self, i: int) -> usize {
        if i < 0 {
            self.head.val
        } else {
            self.order@[i]
        }
    }

    pub closed spec fn wf(&self) -> bool {
        let order = self.order@;
        &&& self.events.wf()
        &&& self.events@.contains_key(self.head.val)
        &&& forall|i: int| 0 <= i < order.len() ==> {
            &&& self.events@.contains_key(#[trigger] order[i])
            &&& order[i] != self.head.val
        }
        &&& forall|i: int, j: int| 0 <= i < order.len() && 0 <= j < order.len() && i != j
            ==> order[i] != order[j]
        &&& self.node(self.head.val).next == (if order.len() == 0 {
            None
        } else {
            Some(Handle { val: order[0] })
        })
        &&& forall|i: int| 0 <= i < order.len() ==> {
            &&& (#[trigger] self.node(order[i])).event is Some
            &&& self.node(order[i]).prev == Some(Handle { val: self.handle_at(i - 1) })
            &&& self.node(order[i]).next == (if i + 1 < order.len() {
                Some(Handle { val: order[i + 1] })
            } else {
                None
            })
        }
        &&& self.tail.val == self.handle_at(order.len() - 1)
        &&& self.insertion_pos@ <= order.len()
        &&& self.depth_first_insertion_point.val == self.handle_at(self.insertion_pos@ - 1)
    }

    /// The armed events, in the order in which they will fire.
    pub closed spec fn pending(&self) -> Seq<E> {
        Seq::new(self.order@.len(), |i: int| self.node(self.order@[i]).event->Some_0)
    }

    /// The position at which the next depth-first event is inserted.
    pub closed spec fn insertion_point(&self) -> nat {
        self.insertion_pos@
    }

    /// The insertion point never passes the end of the queue.
    pub proof fn lemma_insertion_point_bound(&self)
        requires
            self.wf(),
        ensures
            self.insertion_point() <= self.pending().len(),
    {
    }

    pub fn new() -> (r: EventQueue<E>)
        ensures
            r.wf(),
            r.pending() == Seq::<E>::empty(),
            r.insertion_point() == 0,
    {
        let mut events = HandleTable::new();
        let head = events.push(EventNode { event: None, prev: None, next: None });
        let r = EventQueue {
            events,
            head,
            tail: head,
            depth_first_insertion_point: head,
            order: Ghost(Seq::empty()),
            insertion_pos: Ghost(0),
        };
        assert(r.pending() =~= Seq::<E>::empty());
        r
    }

    pub fn is_empty(&self) -> (r: bool)
        requires
            self.wf(),
        ensures
            r == (self.pending().len() == 0),
    {
        self.events.get(self.head).next.is_none()
    }

    /// Moves the depth-first insertion point back to the front.
    pub fn reset_insertion_point(&mut self)
        requires
            old(self).wf(),
        ensures
            final(self).wf(),
            final(self).pending() == old(self).pending(),
            final(self).insertion_point() == 0,
    {
        self.depth_first_insertion_point = self.head;
        self.insertion_pos = Ghost(0);
        proof {
            let order = self.order@;
            assert forall|i: int| 0 <= i < order.len() implies {
                &&& (#[trigger] self.node(order[i])).event is Some
                &&& self.node(order[i]).prev == Some(Handle { val: self.handle_at(i - 1) })
                &&& self.node(order[i]).next == (if i + 1 < order.len() {
                    Some(Handle { val: order[i + 1] })
                } else {
                    None
                })
            } by {
                assert(old(self).node(order[i]).event is Some);
            }
        }
    }

    /// Inserts `event` right after the depth-first insertion point, which then
    /// moves to the new event: events armed while one fires run next, in the
    /// order in which they were armed.
    pub fn arm_depth_first(&mut self, event: E)
        requires
            old(self).wf(),
        ensures
            final(self).wf(),
            final(self).pending() == old(self).pending().insert(
                old(self).insertion_point() as int,
                event,
            ),
            final(self).insertion_point() == old(self).insertion_point() + 1,
    {
        let ghost old_order = self.order@;
        let ghost pos = self.insertion_pos@ as int;
        let point = self.depth_first_insertion_point;
        let point_node = *self.events.get(point);
        let next = point_node.next;
        proof {
            if pos > 0 {
                assert(old(self).node(old_order[pos - 1]).event is Some);
            }
            assert(next == (if pos < old_order.len() {
                Some(Handle { val: old_order[pos] })
            } else {
                None::<Handle>
            }));
            if pos < old_order.len() {
                assert(old(self).events@.contains_key(old_order[pos]));
            }
        }
        let h = self.events.push(EventNode { event: Some(event), prev: Some(point), next });
        proof {
            assert(!old_order.contains(h.val)) by {
                if old_order.contains(h.val) {
                    let k = choose|k: int| 0 <= k < old_order.len() && old_order[k] == h.val;
                    assert(old(self).events@.contains_key(old_order[k]));
                }
            }
        }
        match next {
            Some(n) => {
                let n_node = *self.events.get(n);
                self.events.set(n, EventNode { prev: Some(h), ..n_node });
            },
            None => {
                self.tail = h;
            },
        }
        self.events.set(point, EventNode { next: Some(h), ..point_node });
        self.depth_first_insertion_point = h;
        self.order = Ghost(old_order.insert(pos, h.val));
        self.insertion_pos = Ghost((pos + 1) as nat);
        proof {
            let order = self.order@;
            assert forall|i: int| 0 <= i < order.len() implies {
                &&& self.events@.contains_key(#[trigger] order[i])
                &&& order[i] != self.head.val
            } by {
                if i > pos {
                    assert(order[i] == old_order[i - 1]);
                } else if i < pos {
                    assert(order[i] == old_order[i]);
                }
            }
            assert forall|i: int, j: int| 0 <= i < order.len() && 0 <= j < order.len() && i != j
                implies order[i] != order[j] by {
                if i != pos && j != pos {
                    let oi = if i < pos { i } else { i - 1 };
                    let oj = if j < pos { j } else { j - 1 };
                    assert(order[i] == old_order[oi]);
                    assert(order[j] == old_order[oj]);
                } else if i == pos {
                    let oj = if j < pos { j } else { j - 1 };
                    assert(order[j] == old_order[oj]);
                } else {
                    let oi = if i < pos { i } else { i - 1 };
                    assert(order[i] == old_order[oi]);
                }
            }
            assert forall|i: int| 0 <= i < order.len() implies {
                &&& (#[trigger] self.node(order[i])).event is Some
                &&& self.node(order[i]).prev == Some(Handle { val: self.handle_at(i - 1) })
                &&& self.node(order[i]).next == (if i + 1 < order.len() {
                    Some(Handle { val: order[i + 1] })
                } else {
                    None
                })
            } by {
                if i < pos {
                    assert(order[i] == old_order[i]);
                    assert(old(self).node(old_order[i]).event is Some);
                    if i + 1 < pos {
                        assert(order[i + 1] == old_order[i + 1]);
                    }
                    if i > 0 {
                        assert(order[i - 1] == old_order[i - 1]);
                    }
                } else if i > pos {
                    assert(order[i] == old_order[i - 1]);
                    assert(old(self).node(old_order[i - 1]).event is Some);
                    if i + 1 < order.len() {
                        assert(order[i + 1] == old_order[i]);
                    }
                    if i - 1 > pos {
                        assert(order[i - 1] == old_order[i - 2]);
                    }
                } else {
                    if i + 1 < order.len() {
                        assert(order[i + 1] == old_order[i]);
                    }
                    if i > 0 {
                        assert(order[i - 1] == old_order[i - 1]);
                    }
                }
            }
            if order.len() > 0 && pos > 0 {
                assert(order[0] == old_order[0]);
            }
            if pos < old_order.len() {
                assert(order[order.len() - 1] == old_order[old_order.len() - 1]);
            }
            assert(self.pending() =~= old(self).pending().insert(pos, event)) by {
                assert forall|i: int| 0 <= i < order.len() implies self.pending()[i]
                    == old(self).pending().insert(pos, event)[i] by {
                    if i < pos {
                        assert(order[i] == old_order[i]);
                    } else if i > pos {
                        assert(order[i] == old_order[i - 1]);
                    }
                }
            }
        }
    }

    /// Appends `event` at the tail of the queue.
    pub fn arm_breadth_first(&mut self, event: E)
        requires
            old(self).wf(),
        ensures
            final(self).wf(),
            final(self).pending() == old(self).pending().push(event),
            final(self).insertion_point() == old(self).insertion_point(),
    {
        let ghost old_order = self.order@;
        let tail = self.tail;
        let tail_node = *self.events.get(tail);
        let h = self.events.push(EventNode { event: Some(event), prev: Some(tail), next: None });
        proof {
            assert(!old_order.contains(h.val)) by {
                if old_order.contains(h.val) {
                    let k = choose|k: int| 0 <= k < old_order.len() && old_order[k] == h.val;
                    assert(old(self).events@.contains_key(old_order[k]));
                }
            }
        }
        self.events.set(tail, EventNode { next: Some(h), ..tail_node });
        self.tail = h;
        self.order = Ghost(old_order.push(h.val));
        proof {
            let order = self.order@;
            assert forall|i: int| 0 <= i < order.len() implies {
                &&& (#[trigger] self.node(order[i])).event is Some
                &&& self.node(order[i]).prev == Some(Handle { val: self.handle_at(i - 1) })
                &&& self.node(order[i]).next == (if i + 1 < order.len() {
                    Some(Handle { val: order[i + 1] })
                } else {
                    None
                })
            } by {
                if i < old_order.len() {
                    assert(order[i] == old_order[i]);
                    assert(old(self).node(old_order[i]).event is Some);
                    if i > 0 {
                        assert(order[i - 1] == old_order[i - 1]);
                    }
                } else if i > 0 {
                    assert(order[i - 1] == old_order[i - 1]);
                }
            }
            if old_order.len() > 0 {
                assert(order[0] == old_order[0]);
            }
            if self.insertion_pos@ > 0 {
                assert(order[self.insertion_pos@ - 1] == old_order[self.insertion_pos@ - 1]);
            }
            assert(self.pending() =~= old(self).pending().push(event)) by {
                assert forall|i: int| 0 <= i < old_order.len() implies self.pending()[i]
                    == old(self).pending()[i] by {
                    assert(order[i] == old_order[i]);
                }
            }
        }
    }

    /// Takes the first armed event out of the queue and returns it, or `None`
    /// when nothing is armed. The depth-first insertion point goes back to
    /// the front, so that what the caller arms depth-first while handling the
    /// event runs before everything that was already armed.
    pub fn turn(&mut self) -> (r: Option<E>)
        requires
            old(self).wf(),
        ensures
            final(self).wf(),
            old(self).pending().len() == 0 ==> r is None && final(self).pending()
                == old(self).pending(),
            old(self).pending().len() > 0 ==> r == Some(old(self).pending()[0])
                && final(self).pending() == old(self).pending().drop_first(),
            final(self).insertion_point() == 0,
    {
        let ghost old_order = self.order@;
        let head = self.head;
        let head_node = *self.events.get(head);
        match head_node.next {
            None => {
                self.depth_first_insertion_point = head;
                self.insertion_pos = Ghost(0);
                None
            },
            Some(first) => {
                let first_node = *self.events.get(first);
                let next = first_node.next;
                proof {
                    assert(first.val == old_order[0]);
                    assert(old(self).node(old_order[0]).event is Some);
                }
                self.events.set(head, EventNode { next, ..head_node });
                match next {
                    Some(n) => {
                        let n_node = *self.events.get(n);
                        self.events.set(n, EventNode { prev: Some(head), ..n_node });
                    },
                    None => {},
                }
                if self.tail.val == first.val {
                    self.tail = head;
                }
                let removed = self.events.remove(first);
                self.depth_first_insertion_point = head;
                self.order = Ghost(old_order.drop_first());
                self.insertion_pos = Ghost(0);
                proof {
                    let order = self.order@;
                    assert forall|i: int| 0 <= i < order.len() implies {
                        &&& self.events@.contains_key(#[trigger] order[i])
                        &&& order[i] != self.head.val
                    } by {
                        assert(order[i] == old_order[i + 1]);
                    }
                    assert forall|i: int, j: int|
                        0 <= i < order.len() && 0 <= j < order.len() && i != j
                        implies order[i] != order[j] by {
                        assert(order[i] == old_order[i + 1]);
                        assert(order[j] == old_order[j + 1]);
                    }
                    assert forall|i: int| 0 <= i < order.len() implies {
                        &&& (#[trigger] self.node(order[i])).event is Some
                        &&& self.node(order[i]).prev == Some(Handle { val: self.handle_at(i - 1) })
                        &&& self.node(order[i]).next == (if i + 1 < order.len() {
                            Some(Handle { val: order[i + 1] })
                        } else {
                            None
                        })
                    } by {
                        assert(order[i] == old_order[i + 1]);
                        assert(old(self).node(old_order[i + 1]).event is Some);
                        if i + 1 < order.len() {
                            assert(order[i + 1] == old_order[i + 2]);
                        }
                        if i > 0 {
                            assert(order[i - 1] == old_order[i]);
                        }
                    }
                    if order.len() > 0 {
                        assert(order[0] == old_order[1]);
                        assert(order[order.len() - 1] == old_order[old_order.len() - 1]);
                    }
                    assert(self.pending() =~= old(self).pending().drop_first()) by {
                        assert forall|i: int| 0 <= i < order.len() implies self.pending()[i]
                            == old(self).pending().drop_first()[i] by {
                            assert(order[i] == old_order[i + 1]);
                        }
                    }
                }
                removed.event
            },
        }
    }

}

} // verus!
