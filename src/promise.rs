//! The promise engine: an arena of promise nodes driven by the event queue.
//!
//! A promise names a node of its event loop. Nodes resolve by readiness
//! propagation: when a node resolves, the node that waits on it is armed on
//! the queue, and the next turn advances it. A transformation applies a
//! function of the program; the engine names it by a tag and hands it, with
//! its argument, to the driver, which runs it and reports the outcome.
use vstd::prelude::*;
use crate::event_queue::EventQueue;

verus! {

/// The kinds of failure a promise can resolve to.
#[derive(Clone, Copy, PartialEq, Eq, Structural, Debug)]
pub enum Error {
    /// A read got fewer bytes than it asked for before the stream closed.
    PrematureEof,
    /// A timer ran out before the guarded promise resolved.
    TimedOut,
    /// The fulfiller of the promise went away without resolving it.
    BrokenPromise,
    /// The operating system reported the given error number.
    Io(i32),
    /// A host and port named no socket address.
    AddressResolution,
}

/// What a promise resolves to when it succeeds.
#[derive(PartialEq, Eq, Debug)]
pub enum Resolution<V> {
    Unit,
    Single(V),
    /// The successes of a joined array of promises, one for each, in order.
    Joined(Vec<Resolution<V>>),
}

pub type Outcome<V> = Result<Resolution<V>, Error>;

/// The state of one promise node.
pub enum NodeState<V> {
    /// Resolved, result not yet taken.
    Ready(Outcome<V>),
    /// Resolved and its result handed on.
    Taken,
    /// Dropped before it resolved; it does no more work.
    Cancelled,
    /// Waits for its fulfiller.
    Hub,
    /// Waits for a timer of the reactor; resolves to `on_expiry` when it runs out.
    Timer { on_expiry: Outcome<V> },
    /// Applies the function `tag` to the success of `inner`, or the function
    /// `on_error` to its failure. With `chain`, the function yields a promise.
    Transform { inner: usize, tag: u64, on_error: Option<u64>, chain: bool },
    /// Runs the function of a transformation: waits for the driver.
    Calling,
    /// Resolves as `inner` resolves.
    Forward { inner: usize },
    /// Resolves as the first of `a` and `b` to resolve.
    Exclusive { a: usize, b: usize },
    /// Resolves to the values of all `parts`, or to the first failure.
    Join { parts: Vec<usize> },
}

pub struct Node<V> {
    pub state: NodeState<V>,
    pub waiter: Option<usize>,
}

/// An armed event: advance `node`, because its input `from` has resolved.
#[derive(Clone, Copy, PartialEq, Eq, Structural, Debug)]
pub struct Event {
    pub node: usize,
    pub from: usize,
}

/// What the driver is to do after a turn.
pub enum Step<V> {
    /// Nothing is armed: wait for the reactor.
    Idle,
    /// An event was handled inside the engine.
    Ran,
    /// Run the function `tag` on `arg`, then report with `EventLoop::complete`.
    Call { node: usize, tag: u64, arg: Outcome<V> },
}

/// What the driver asks of the reactor.
#[derive(Clone, Copy, PartialEq, Eq, Structural, Debug)]
pub enum Request {
    /// Reserve a timer that resolves `node` after `delay_ms`.
    StartTimer { node: usize, delay_ms: u64 },
    /// Clear the reservation of the timer that would resolve `node`.
    ClearTimer { node: usize },
}

/// A queue of events and the promise nodes they advance, on one thread.
pub struct EventLoop<V> {
    queue: EventQueue<Event>,
    nodes: Vec<Node<V>>,
    requests: Vec<Request>,
}

/// A computation that might eventually resolve.
pub struct Promise {
    pub id: usize,
}

/// The write end of a promise made by `new_promise_and_fulfiller`.
pub struct PromiseFulfiller {
    pub id: usize,
}

/// A node that can still resolve.
pub open spec fn is_pending<V>(s: NodeState<V>) -> bool {
    !(s is Ready || s is Taken || s is Cancelled)
}

/// The number of nodes that have not been cancelled.
pub open spec fn live_count<V>(s: Seq<Node<V>>) -> nat
    decreases s.len(),
{
    if s.len() == 0 {
        0
    } else {
        live_count(s.drop_last()) + (if s.last().state is Cancelled {
            0nat
        } else {
            1nat
        })
    }
}

proof fn lemma_live_count_cancel<V>(s: Seq<Node<V>>, i: int, n: Node<V>)
    requires
        0 <= i < s.len(),
        !(s[i].state is Cancelled),
        n.state is Cancelled,
    ensures
        live_count(s.update(i, n)) + 1 == live_count(s),
    decreases s.len(),
{
    let t = s.update(i, n);
    if i == s.len() - 1 {
        assert(t.drop_last() =~= s.drop_last());
    } else {
        assert(t.drop_last() =~= s.drop_last().update(i, n));
        lemma_live_count_cancel(s.drop_last(), i, n);
    }
}

impl<V> EventLoop<V> {
    pub closed spec fn wf(&self) -> bool {
        self.queue.wf()
    }

    /// The promise nodes, indexed by promise id.
    pub closed spec fn nodes(&self) -> Seq<Node<V>> {
        self.nodes@
    }

    /// The node ids armed on the queue, in the order in which they run.
    pub closed spec fn pending(&self) -> Seq<Event> {
        self.queue.pending()
    }

    /// What has been asked of the reactor and not yet collected.
    pub closed spec fn requests(&self) -> Seq<Request> {
        self.requests@
    }

    pub fn new() -> (r: EventLoop<V>)
        ensures
            r.wf(),
            r.nodes() == Seq::<Node<V>>::empty(),
            r.pending() == Seq::<Event>::empty(),
            r.insertion_point() == 0,
            r.requests() == Seq::<Request>::empty(),
    {
        EventLoop { queue: EventQueue::new(), nodes: Vec::new(), requests: Vec::new() }
    }

    fn add_node(&mut self, state: NodeState<V>) -> (id: usize)
        ensures
            id == old(self).nodes().len(),
            final(self).nodes() == old(self).nodes().push(Node { state, waiter: None }),
            final(self).queue == old(self).queue,
            final(self).requests == old(self).requests,
    {
        let id = self.nodes.len();
        self.nodes.push(Node { state, waiter: None });
        id
    }

    pub fn nodes_len(&self) -> (r: usize)
        ensures
            r == self.nodes().len(),
    {
        self.nodes.len()
    }

    pub fn is_ready(&self, id: usize) -> (r: bool)
        requires
            id < self.nodes().len(),
        ensures
            r == self.nodes()[id as int].state is Ready,
    {
        match &self.nodes[id].state {
            NodeState::Ready(_) => true,
            _ => false,
        }
    }

    fn take_state(&mut self, id: usize, replacement: NodeState<V>) -> (s: NodeState<V>)
        requires
            id < old(self).nodes().len(),
        ensures
            s == old(self).nodes()[id as int].state,
            final(self).nodes() == old(self).nodes().update(
                id as int,
                Node { state: replacement, waiter: old(self).nodes()[id as int].waiter },
            ),
            final(self).queue == old(self).queue,
            final(self).requests == old(self).requests,
    {
        let mut s = replacement;
        std::mem::swap(&mut s, &mut self.nodes[id].state);
        proof {
            assert(self.nodes@ =~= old(self).nodes().update(
                id as int,
                Node { state: replacement, waiter: old(self).nodes()[id as int].waiter },
            ));
        }
        s
    }

    /// Takes the result of a resolved node, which is then `Taken`.
    fn take_result(&mut self, id: usize) -> (r: Outcome<V>)
        requires
            id < old(self).nodes().len(),
            old(self).nodes()[id as int].state is Ready,
        ensures
            old(self).nodes()[id as int].state == NodeState::Ready(r),
            final(self).nodes() == old(self).nodes().update(
                id as int,
                Node { state: NodeState::Taken, waiter: old(self).nodes()[id as int].waiter },
            ),
            final(self).queue == old(self).queue,
            final(self).requests == old(self).requests,
    {
        match self.take_state(id, NodeState::Taken) {
            NodeState::Ready(r) => r,
            _ => {
                proof {
                    assert(false);
                }
                Err(Error::BrokenPromise)
            },
        }
    }

    /// Resolves `id` and arms the node that waits on it: depth-first when
    /// the resolution follows from the event being handled, breadth-first
    /// when it comes from outside.
    fn resolve(&mut self, id: usize, r: Outcome<V>, depth_first: bool)
        requires
            old(self).wf(),
            id < old(self).nodes().len(),
        ensures
            final(self).wf(),
            final(self).nodes() == old(self).nodes().update(
                id as int,
                Node { state: NodeState::Ready(r), waiter: old(self).nodes()[id as int].waiter },
            ),
            final(self).pending() == match old(self).nodes()[id as int].waiter {
                Some(w) => if depth_first {
                    old(self).pending().insert(old(self).queue.insertion_point() as int, Event { node: w, from: id })
                } else {
                    old(self).pending().push(Event { node: w, from: id })
                },
                None => old(self).pending(),
            },
            depth_first ==> final(self).queue.insertion_point() == old(self).queue.insertion_point()
                + (if old(self).nodes()[id as int].waiter is Some { 1int } else { 0int }),
            !depth_first ==> final(self).queue.insertion_point()
                == old(self).queue.insertion_point(),
            final(self).requests == old(self).requests,
    {
        self.take_state(id, NodeState::Ready(r));
        match self.nodes[id].waiter {
            Some(w) => {
                if depth_first {
                    self.queue.arm_depth_first(Event { node: w, from: id });
                } else {
                    self.queue.arm_breadth_first(Event { node: w, from: id });
                }
            },
            None => {},
        }
    }

    /// Makes `parent` the node that waits on `child`; if `child` has already
    /// resolved, `parent` is armed depth-first.
    fn attach(&mut self, child: usize, parent: usize)
        requires
            old(self).wf(),
            child < old(self).nodes().len(),
        ensures
            final(self).wf(),
            final(self).nodes() == old(self).nodes().update(
                child as int,
                Node { state: old(self).nodes()[child as int].state, waiter: Some(parent) },
            ),
            final(self).pending() == if old(self).nodes()[child as int].state is Ready {
                old(self).pending().insert(old(self).queue.insertion_point() as int, Event { node: parent, from: child })
            } else {
                old(self).pending()
            },
            final(self).insertion_point() == old(self).insertion_point() + if old(self).nodes()[child as int].state
                is Ready { 1nat } else { 0nat },
            final(self).requests == old(self).requests,
    {
        self.nodes[child].waiter = Some(parent);
        proof {
            assert(self.nodes@ =~= old(self).nodes().update(
                child as int,
                Node { state: old(self).nodes()[child as int].state, waiter: Some(parent) },
            ));
        }
        if self.is_ready(child) {
            self.queue.arm_depth_first(Event { node: parent, from: child });
        }
    }
}


/// Creates a new promise and the fulfiller that resolves it.
pub fn new_promise_and_fulfiller<V>(lp: &mut EventLoop<V>) -> (r: (Promise, PromiseFulfiller))
    requires
        old(lp).wf(),
    ensures
        final(lp).wf(),
        r.0.id == r.1.id,
        r.0.id == old(lp).nodes().len(),
        final(lp).nodes() == old(lp).nodes().push(Node { state: NodeState::Hub, waiter: None }),
        final(lp).insertion_point() == old(lp).insertion_point(),
        final(lp).pending() == old(lp).pending(),
        final(lp).requests() == old(lp).requests(),
{
    let id = lp.add_node(NodeState::Hub);
    (Promise { id }, PromiseFulfiller { id })
}

impl PromiseFulfiller {
    /// Resolves the paired promise, unless it has been dropped, and arms what
    /// waits on it at the tail of the queue.
    pub(crate) fn settle<V>(self, lp: &mut EventLoop<V>, r: Outcome<V>)
        requires
            old(lp).wf(),
            self.id < old(lp).nodes().len(),
        ensures
            final(lp).wf(),
            final(lp).requests() == old(lp).requests(),
            final(lp).insertion_point() == old(lp).insertion_point(),
            old(lp).nodes()[self.id as int].state is Hub ==> {
                &&& final(lp).nodes() == old(lp).nodes().update(
                    self.id as int,
                    Node { state: NodeState::Ready(r), waiter: old(lp).nodes()[self.id as int].waiter },
                )
                &&& final(lp).pending() == match old(lp).nodes()[self.id as int].waiter {
                    Some(w) => old(lp).pending().push(Event { node: w, from: self.id }),
                    None => old(lp).pending(),
                }
            },
            !(old(lp).nodes()[self.id as int].state is Hub) ==> final(lp).nodes() == old(lp).nodes()
                && final(lp).pending() == old(lp).pending(),
    {
        match lp.nodes[self.id].state {
            NodeState::Hub => lp.resolve(self.id, r, false),
            _ => {},
        }
    }

    /// Fulfills the paired promise with `value`.
    pub fn fulfill<V>(self, lp: &mut EventLoop<V>, value: V)
        requires
            old(lp).wf(),
            self.id < old(lp).nodes().len(),
        ensures
            final(lp).wf(),
            final(lp).requests() == old(lp).requests(),
            final(lp).insertion_point() == old(lp).insertion_point(),
            old(lp).nodes()[self.id as int].state is Hub ==> {
                &&& final(lp).nodes() == old(lp).nodes().update(
                    self.id as int,
                    Node {
                        state: NodeState::Ready(Ok(Resolution::Single(value))),
                        waiter: old(lp).nodes()[self.id as int].waiter,
                    },
                )
                &&& final(lp).pending() == match old(lp).nodes()[self.id as int].waiter {
                    Some(w) => old(lp).pending().push(Event { node: w, from: self.id }),
                    None => old(lp).pending(),
                }
            },
            !(old(lp).nodes()[self.id as int].state is Hub) ==> final(lp).nodes() == old(lp).nodes()
                && final(lp).pending() == old(lp).pending(),
    {
        self.settle(lp, Ok(Resolution::Single(value)))
    }

    /// Rejects the paired promise with `error`.
    pub fn reject<V>(self, lp: &mut EventLoop<V>, error: Error)
        requires
            old(lp).wf(),
            self.id < old(lp).nodes().len(),
        ensures
            final(lp).wf(),
            final(lp).requests() == old(lp).requests(),
            final(lp).insertion_point() == old(lp).insertion_point(),
            old(lp).nodes()[self.id as int].state is Hub ==> {
                &&& final(lp).nodes() == old(lp).nodes().update(
                    self.id as int,
                    Node {
                        state: NodeState::Ready(Err(error)),
                        waiter: old(lp).nodes()[self.id as int].waiter,
                    },
                )
                &&& final(lp).pending() == match old(lp).nodes()[self.id as int].waiter {
                    Some(w) => old(lp).pending().push(Event { node: w, from: self.id }),
                    None => old(lp).pending(),
                }
            },
            !(old(lp).nodes()[self.id as int].state is Hub) ==> final(lp).nodes() == old(lp).nodes()
                && final(lp).pending() == old(lp).pending(),
    {
        self.settle(lp, Err(error))
    }

    /// Gives the fulfiller up without resolving: the paired promise, if it
    /// still waits, rejects with `BrokenPromise`.
    pub fn abandon<V>(self, lp: &mut EventLoop<V>)
        requires
            old(lp).wf(),
            self.id < old(lp).nodes().len(),
        ensures
            final(lp).wf(),
            final(lp).requests() == old(lp).requests(),
            final(lp).insertion_point() == old(lp).insertion_point(),
            old(lp).nodes()[self.id as int].state is Hub ==> {
                &&& final(lp).nodes() == old(lp).nodes().update(
                    self.id as int,
                    Node {
                        state: NodeState::Ready(Err(Error::BrokenPromise)),
                        waiter: old(lp).nodes()[self.id as int].waiter,
                    },
                )
                &&& final(lp).pending() == match old(lp).nodes()[self.id as int].waiter {
                    Some(w) => old(lp).pending().push(Event { node: w, from: self.id }),
                    None => old(lp).pending(),
                }
            },
            !(old(lp).nodes()[self.id as int].state is Hub) ==> final(lp).nodes() == old(lp).nodes()
                && final(lp).pending() == old(lp).pending(),
    {
        self.settle(lp, Err(Error::BrokenPromise))
    }
}

impl Promise {
    /// Creates a promise that has already been fulfilled with `value`.
    pub fn fulfilled<V>(lp: &mut EventLoop<V>, value: V) -> (p: Promise)
        requires
            old(lp).wf(),
        ensures
            final(lp).wf(),
            p.id == old(lp).nodes().len(),
            final(lp).nodes() == old(lp).nodes().push(
                Node { state: NodeState::Ready(Ok(Resolution::Single(value))), waiter: None },
            ),
            final(lp).insertion_point() == old(lp).insertion_point(),
        final(lp).pending() == old(lp).pending(),
            final(lp).requests() == old(lp).requests(),
    {
        Promise { id: lp.add_node(NodeState::Ready(Ok(Resolution::Single(value)))) }
    }

    /// Creates a promise that has already been rejected with `error`.
    pub fn rejected<V>(lp: &mut EventLoop<V>, error: Error) -> (p: Promise)
        requires
            old(lp).wf(),
        ensures
            final(lp).wf(),
            p.id == old(lp).nodes().len(),
            final(lp).nodes() == old(lp).nodes().push(
                Node { state: NodeState::Ready(Err(error)), waiter: None },
            ),
            final(lp).insertion_point() == old(lp).insertion_point(),
        final(lp).pending() == old(lp).pending(),
            final(lp).requests() == old(lp).requests(),
    {
        Promise { id: lp.add_node(NodeState::Ready(Err(error))) }
    }

    /// Creates a node that waits on `self`, which must not have a waiter yet.
    fn wrap<V>(self, lp: &mut EventLoop<V>, state: NodeState<V>) -> (p: Promise)
        requires
            old(lp).wf(),
            self.id < old(lp).nodes().len(),
        ensures
            final(lp).wf(),
            p.id == old(lp).nodes().len(),
            final(lp).nodes() == old(lp).nodes().update(
                self.id as int,
                Node { state: old(lp).nodes()[self.id as int].state, waiter: Some(p.id) },
            ).push(Node { state, waiter: None }),
            final(lp).pending() == if old(lp).nodes()[self.id as int].state is Ready {
                old(lp).pending().insert(old(lp).insertion_point() as int, Event { node: p.id, from: self.id })
            } else {
                old(lp).pending()
            },
            final(lp).insertion_point() == old(lp).insertion_point() + if old(lp).nodes()[self.id as int].state
                is Ready { 1nat } else { 0nat },
            final(lp).requests() == old(lp).requests(),
    {
        let id = lp.add_node(state);
        lp.attach(self.id, id);
        proof {
            assert(final(lp).nodes() =~= old(lp).nodes().update(
                self.id as int,
                Node { state: old(lp).nodes()[self.id as int].state, waiter: Some(id) },
            ).push(Node { state, waiter: None }));
        }
        Promise { id }
    }

    /// Chains the function `tag` of the program, which yields a further
    /// promise, on success, and the function `error_handler` on failure.
    /// Neither runs before the next turn.
    pub fn then_else<V>(self, lp: &mut EventLoop<V>, tag: u64, error_handler: u64) -> (p: Promise)
        requires
            old(lp).wf(),
            self.id < old(lp).nodes().len(),
        ensures
            final(lp).wf(),
            p.id == old(lp).nodes().len(),
            final(lp).nodes() == old(lp).nodes().update(
                self.id as int,
                Node { state: old(lp).nodes()[self.id as int].state, waiter: Some(p.id) },
            ).push(Node { state: NodeState::Transform { inner: self.id, tag, on_error: Some(error_handler), chain: true, }, waiter: None }),
            final(lp).pending() == if old(lp).nodes()[self.id as int].state is Ready {
                old(lp).pending().insert(old(lp).insertion_point() as int, Event { node: p.id, from: self.id })
            } else {
                old(lp).pending()
            },
            final(lp).requests() == old(lp).requests(),
    {
        let inner = self.id;
        self.wrap(lp, NodeState::Transform { inner, tag, on_error: Some(error_handler), chain: true })
    }

    /// Like `then_else`, with failures passed on unchanged.
    pub fn then<V>(self, lp: &mut EventLoop<V>, tag: u64) -> (p: Promise)
        requires
            old(lp).wf(),
            self.id < old(lp).nodes().len(),
        ensures
            final(lp).wf(),
            p.id == old(lp).nodes().len(),
            final(lp).nodes() == old(lp).nodes().update(
                self.id as int,
                Node { state: old(lp).nodes()[self.id as int].state, waiter: Some(p.id) },
            ).push(Node { state: NodeState::Transform { inner: self.id, tag, on_error: None, chain: true }, waiter: None }),
            final(lp).pending() == if old(lp).nodes()[self.id as int].state is Ready {
                old(lp).pending().insert(old(lp).insertion_point() as int, Event { node: p.id, from: self.id })
            } else {
                old(lp).pending()
            },
            final(lp).requests() == old(lp).requests(),
    {
        let inner = self.id;
        self.wrap(lp, NodeState::Transform { inner, tag, on_error: None, chain: true })
    }

    /// Like `then_else`, for functions that yield a value rather than a promise.
    pub fn map_else<V>(self, lp: &mut EventLoop<V>, tag: u64, error_handler: u64) -> (p: Promise)
        requires
            old(lp).wf(),
            self.id < old(lp).nodes().len(),
        ensures
            final(lp).wf(),
            p.id == old(lp).nodes().len(),
            final(lp).nodes() == old(lp).nodes().update(
                self.id as int,
                Node { state: old(lp).nodes()[self.id as int].state, waiter: Some(p.id) },
            ).push(Node { state: NodeState::Transform { inner: self.id, tag, on_error: Some(error_handler), chain: false, }, waiter: None }),
            final(lp).pending() == if old(lp).nodes()[self.id as int].state is Ready {
                old(lp).pending().insert(old(lp).insertion_point() as int, Event { node: p.id, from: self.id })
            } else {
                old(lp).pending()
            },
            final(lp).requests() == old(lp).requests(),
    {
        let inner = self.id;
        self.wrap(lp, NodeState::Transform { inner, tag, on_error: Some(error_handler), chain: false })
    }

    /// Like `map_else`, with failures passed on unchanged.
    pub fn map<V>(self, lp: &mut EventLoop<V>, tag: u64) -> (p: Promise)
        requires
            old(lp).wf(),
            self.id < old(lp).nodes().len(),
        ensures
            final(lp).wf(),
            p.id == old(lp).nodes().len(),
            final(lp).nodes() == old(lp).nodes().update(
                self.id as int,
                Node { state: old(lp).nodes()[self.id as int].state, waiter: Some(p.id) },
            ).push(Node { state: NodeState::Transform { inner: self.id, tag, on_error: None, chain: false }, waiter: None }),
            final(lp).pending() == if old(lp).nodes()[self.id as int].state is Ready {
                old(lp).pending().insert(old(lp).insertion_point() as int, Event { node: p.id, from: self.id })
            } else {
                old(lp).pending()
            },
            final(lp).requests() == old(lp).requests(),
    {
        let inner = self.id;
        self.wrap(lp, NodeState::Transform { inner, tag, on_error: None, chain: false })
    }

    /// Resolves as the first of `self` and `other` to resolve; the other is cancelled.
    pub fn exclusive_join<V>(self, lp: &mut EventLoop<V>, other: Promise) -> (p: Promise)
        requires
            old(lp).wf(),
            self.id < old(lp).nodes().len(),
            other.id < old(lp).nodes().len(),
            self.id != other.id,
        ensures
            final(lp).wf(),
            p.id == old(lp).nodes().len(),
            final(lp).nodes().len() == old(lp).nodes().len() + 1,
            final(lp).nodes().last() == (Node::<V> {
                state: NodeState::<V>::Exclusive { a: self.id, b: other.id },
                waiter: None,
            }),
            final(lp).nodes()[self.id as int].waiter == Some(p.id),
            final(lp).nodes()[other.id as int].waiter == Some(p.id),
            final(lp).nodes()[self.id as int].state == old(lp).nodes()[self.id as int].state,
            final(lp).nodes()[other.id as int].state == old(lp).nodes()[other.id as int].state,
            forall|i: int| 0 <= i < old(lp).nodes().len() && i != self.id && i != other.id
                ==> #[trigger] final(lp).nodes()[i] == old(lp).nodes()[i],
            final(lp).requests() == old(lp).requests(),
            ({
                let ip = old(lp).insertion_point() as int;
                let ra = old(lp).nodes()[self.id as int].state is Ready;
                let rb = old(lp).nodes()[other.id as int].state is Ready;
                let s1 = if ra {
                    old(lp).pending().insert(ip, Event { node: p.id, from: self.id })
                } else {
                    old(lp).pending()
                };
                &&& final(lp).pending() == if rb {
                    s1.insert(ip + if ra { 1int } else { 0int }, Event { node: p.id, from: other.id })
                } else {
                    s1
                }
                &&& final(lp).insertion_point() == ip + (if ra { 1int } else { 0int }) + (if rb { 1int } else { 0int })
            }),
    {
        let a = self.id;
        let b = other.id;
        let p = self.wrap(lp, NodeState::Exclusive { a, b });
        lp.attach(b, p.id);
        p
    }
}

/// The events a new node `p` gets armed with when it starts waiting on
/// `ids`: one for each that has already resolved, in order.
pub open spec fn armed_by<V>(nodes: Seq<Node<V>>, ids: Seq<usize>, p: usize) -> Seq<Event> {
    ids.filter(|i: usize| nodes[i as int].state is Ready).map_values(|i: usize| Event { node: p, from: i })
}

/// Transforms promises into a promise of all their values, in order.
pub fn join_promises<V>(lp: &mut EventLoop<V>, promises: Vec<Promise>) -> (p: Promise)
    requires
        old(lp).wf(),
        forall|i: int| 0 <= i < promises.len() ==> promises[i].id < old(lp).nodes().len(),
        distinct(promises@.map_values(|q: Promise| q.id)),
    ensures
        final(lp).wf(),
        p.id == old(lp).nodes().len(),
        final(lp).nodes().len() == old(lp).nodes().len() + 1,
        final(lp).nodes().last().state is Join,
        final(lp).nodes().last().state->Join_parts@ == promises@.map_values(|q: Promise| q.id),
        forall|i: int| 0 <= i < promises.len() ==> {
            &&& final(lp).nodes()[promises[i].id as int].waiter == Some(p.id)
            &&& final(lp).nodes()[promises[i].id as int].state
                == old(lp).nodes()[promises[i].id as int].state
        },
        forall|k: int| 0 <= k < old(lp).nodes().len() && !promises@.map_values(|q: Promise| q.id).contains(k as usize)
            ==> #[trigger] final(lp).nodes()[k] == old(lp).nodes()[k],
        final(lp).requests() == old(lp).requests(),
        ({
            let ip = old(lp).insertion_point() as int;
            let armed = armed_by(old(lp).nodes(), promises@.map_values(|q: Promise| q.id), p.id);
            &&& final(lp).pending() == old(lp).pending().take(ip) + armed + old(lp).pending().skip(ip)
            &&& final(lp).insertion_point() == ip + armed.len()
        }),
{
    let ghost ids = promises@.map_values(|q: Promise| q.id);
    let mut parts: Vec<usize> = Vec::new();
    let mut i: usize = 0;
    while i < promises.len()
        invariant
            i <= promises.len(),
            parts@ == promises@.take(i as int).map_values(|q: Promise| q.id),
        decreases promises.len() - i,
    {
        parts.push(promises[i].id);
        proof {
            assert(promises@.take(i + 1).map_values(|q: Promise| q.id)
                =~= promises@.take(i as int).map_values(|q: Promise| q.id).push(promises[i as int].id));
        }
        i += 1;
    }
    proof {
        assert(promises@.take(promises.len() as int) =~= promises@);
        lp.lemma_insertion_point_bound();
    }
    let ghost parts_view = parts@;
    let ghost ip = old(lp).insertion_point() as int;
    let id = lp.add_node(NodeState::Join { parts });
    let mut j: usize = 0;
    while j < promises.len()
        invariant
            lp.wf(),
            j <= promises.len(),
            id == old(lp).nodes().len(),
            lp.nodes().len() == old(lp).nodes().len() + 1,
            lp.nodes().last().state is Join,
            lp.nodes().last().state->Join_parts@ == parts_view,
            parts_view == ids,
            ids == promises@.map_values(|q: Promise| q.id),
            ip == old(lp).insertion_point(),
            ip <= old(lp).pending().len(),
            forall|i: int| 0 <= i < promises.len() ==> promises[i].id < old(lp).nodes().len(),
            forall|k: int| 0 <= k < old(lp).nodes().len() ==> (#[trigger] lp.nodes()[k]).state
                == old(lp).nodes()[k].state,
            forall|k: int| 0 <= k < j ==> lp.nodes()[promises[k].id as int].waiter == Some(id),
            forall|k: int| 0 <= k < old(lp).nodes().len() && !ids.take(j as int).contains(k as usize)
                ==> #[trigger] lp.nodes()[k] == old(lp).nodes()[k],
            lp.requests() == old(lp).requests(),
            lp.pending() == old(lp).pending().take(ip) + armed_by(old(lp).nodes(), ids.take(j as int), id)
                + old(lp).pending().skip(ip),
            lp.insertion_point() == ip + armed_by(old(lp).nodes(), ids.take(j as int), id).len(),
        decreases promises.len() - j,
    {
        let pid = promises[j].id;
        let ghost before = lp.pending();
        let ghost before_nodes = lp.nodes();
        lp.attach(pid, id);
        proof {
            assert(ids[j as int] == pid);
            assert forall|k: int| 0 <= k < old(lp).nodes().len() && !ids.take(j + 1).contains(k as usize)
                implies #[trigger] lp.nodes()[k] == old(lp).nodes()[k] by {
                assert(ids.take(j + 1)[j as int] == pid);
                if ids.take(j as int).contains(k as usize) {
                    let q = choose|q: int| 0 <= q < j && ids.take(j as int)[q] == k as usize;
                    assert(ids.take(j + 1)[q] == k as usize);
                }
                assert(lp.nodes()[k] == before_nodes[k]);
            }
            let a = old(lp).pending().take(ip);
            let b = old(lp).pending().skip(ip);
            let e0 = armed_by(old(lp).nodes(), ids.take(j as int), id);
            assert(ids.take(j + 1) =~= ids.take(j as int).push(pid));
            assert(ids.take(j + 1).drop_last() =~= ids.take(j as int));
            reveal(Seq::filter);
            if old(lp).nodes()[pid as int].state is Ready {
                assert(armed_by(old(lp).nodes(), ids.take(j + 1), id) =~= e0.push(Event { node: id, from: pid }));
                assert(before.insert(ip + e0.len(), Event { node: id, from: pid })
                    =~= a + e0.push(Event { node: id, from: pid }) + b);
            } else {
                assert(armed_by(old(lp).nodes(), ids.take(j + 1), id) =~= e0);
            }
        }
        j += 1;
    }
    proof {
        assert(ids.take(promises.len() as int) =~= ids);
        assert forall|k: int| 0 <= k < old(lp).nodes().len() && !ids.contains(k as usize)
            implies #[trigger] lp.nodes()[k] == old(lp).nodes()[k] by {
            assert(!ids.take(promises.len() as int).contains(k as usize));
        }
    }
    Promise { id }
}

/// Timers of the reactor.
pub struct Timer;

impl Timer {
    fn start<V>(&self, lp: &mut EventLoop<V>, delay_ms: u64, on_expiry: Outcome<V>) -> (p: Promise)
        requires
            old(lp).wf(),
        ensures
            final(lp).wf(),
            p.id == old(lp).nodes().len(),
            final(lp).nodes() == old(lp).nodes().push(
                Node { state: NodeState::Timer { on_expiry }, waiter: None },
            ),
            final(lp).pending() == old(lp).pending(),
            final(lp).insertion_point() == old(lp).insertion_point(),
            final(lp).requests() == old(lp).requests().push(
                Request::StartTimer { node: p.id, delay_ms },
            ),
    {
        let id = lp.add_node(NodeState::Timer { on_expiry });
        lp.requests.push(Request::StartTimer { node: id, delay_ms });
        Promise { id }
    }

    /// A promise that resolves after `delay_ms` milliseconds. Cancelling it
    /// clears the reservation.
    pub fn after_delay_ms<V>(&self, lp: &mut EventLoop<V>, delay_ms: u64) -> (p: Promise)
        requires
            old(lp).wf(),
        ensures
            final(lp).wf(),
            p.id == old(lp).nodes().len(),
            final(lp).nodes() == old(lp).nodes().push(
                Node { state: NodeState::Timer { on_expiry: Ok(Resolution::Unit) }, waiter: None },
            ),
            final(lp).pending() == old(lp).pending(),
            final(lp).requests() == old(lp).requests().push(
                Request::StartTimer { node: p.id, delay_ms },
            ),
    {
        self.start(lp, delay_ms, Ok(Resolution::Unit))
    }

    /// Resolves as `promise` does, or fails with `TimedOut` once `delay_ms`
    /// milliseconds have passed.
    pub fn timeout_after_ms<V>(&self, lp: &mut EventLoop<V>, delay_ms: u64, promise: Promise) -> (p: Promise)
        requires
            old(lp).wf(),
            promise.id < old(lp).nodes().len(),
        ensures
            final(lp).wf(),
            p.id == old(lp).nodes().len() + 1,
            final(lp).nodes().len() == old(lp).nodes().len() + 2,
            forall|i: int| 0 <= i < old(lp).nodes().len() && i != promise.id ==> #[trigger] final(lp).nodes()[i]
                == old(lp).nodes()[i],
            final(lp).nodes()[promise.id as int] == (Node {
                state: old(lp).nodes()[promise.id as int].state,
                waiter: Some(p.id),
            }),
            final(lp).nodes()[old(lp).nodes().len() as int] == (Node {
                state: NodeState::<V>::Timer { on_expiry: Err(Error::TimedOut) },
                waiter: Some(p.id),
            }),
            final(lp).nodes().last() == (Node::<V> {
                state: NodeState::<V>::Exclusive { a: promise.id, b: (p.id - 1) as usize },
                waiter: None,
            }),
            final(lp).nodes()[promise.id as int].waiter == Some(p.id),
            final(lp).requests() == old(lp).requests().push(
                Request::StartTimer { node: (p.id - 1) as usize, delay_ms },
            ),
            final(lp).pending() == if old(lp).nodes()[promise.id as int].state is Ready {
                old(lp).pending().insert(old(lp).insertion_point() as int, Event { node: p.id, from: promise.id })
            } else {
                old(lp).pending()
            },
            final(lp).insertion_point() == old(lp).insertion_point() + if old(lp).nodes()[promise.id as int].state
                is Ready { 1nat } else { 0nat },
    {
        let timer = self.start(lp, delay_ms, Err(Error::TimedOut));
        let ghost mid = lp.nodes();
        let pid = promise.id;
        let tid = timer.id;
        let p = promise.exclusive_join(lp, timer);
        proof {
            assert(tid == old(lp).nodes().len());
            assert forall|i: int| 0 <= i < old(lp).nodes().len() && i != pid implies #[trigger] lp.nodes()[i]
                == old(lp).nodes()[i] by {
                assert(mid[i] == old(lp).nodes()[i]);
                assert(i != tid);
            }
        }
        p
    }
}


/// The nodes a node waits on.
pub open spec fn children<V>(s: NodeState<V>) -> Seq<usize> {
    match s {
        NodeState::Transform { inner, .. } => seq![inner],
        NodeState::Forward { inner } => seq![inner],
        NodeState::Exclusive { a, b } => seq![a, b],
        NodeState::Join { parts } => parts@,
        _ => Seq::empty(),
    }
}

/// The requests that cancelling a node in state `s` makes of the reactor.
pub open spec fn cancel_requests<V>(id: usize, s: NodeState<V>) -> Seq<Request> {
    if s is Timer {
        seq![Request::ClearTimer { node: id }]
    } else {
        Seq::empty()
    }
}

/// Every node cancelled between `pre` and `post` has none of its inputs left
/// pending, but those still listed in `todo`.
pub open spec fn inputs_cancelled<V>(pre: Seq<Node<V>>, post: Seq<Node<V>>, todo: Seq<usize>) -> bool {
    forall|i: int, c: int|
        0 <= i < pre.len() && is_pending(pre[i].state) && post[i].state is Cancelled && 0 <= c
            < children(pre[i].state).len() && #[trigger] children(pre[i].state)[c] < pre.len() ==> !is_pending(
            post[children(pre[i].state)[c] as int].state,
        ) || todo.contains(children(pre[i].state)[c])
}

/// Every timer cancelled between `pre` and `post` has a `ClearTimer` in `reqs`.
pub open spec fn timers_cleared<V>(pre: Seq<Node<V>>, post: Seq<Node<V>>, reqs: Seq<Request>) -> bool {
    forall|i: int|
        0 <= i < pre.len() && pre[i].state is Timer && (#[trigger] post[i]).state is Cancelled ==> reqs.contains(
            Request::ClearTimer { node: i as usize },
        )
}

/// What the driver reports after running the function of a transformation.
pub enum Continuation<V> {
    /// The function returned a result directly.
    Value(Outcome<V>),
    /// The function returned a further promise, which the node now follows.
    Chained(Promise),
}

impl<V> EventLoop<V> {
    /// Whether `id` is running the function of a transformation.
    pub fn is_calling(&self, id: usize) -> (r: bool)
        ensures
            r == (id < self.nodes().len() && self.nodes()[id as int].state is Calling),
    {
        id < self.nodes.len() && match &self.nodes[id].state {
            NodeState::Calling => true,
            _ => false,
        }
    }

    fn is_pending_node(&self, id: usize) -> (r: bool)
        requires
            id < self.nodes().len(),
        ensures
            r == is_pending(self.nodes()[id as int].state),
    {
        match &self.nodes[id].state {
            NodeState::Ready(_) | NodeState::Taken | NodeState::Cancelled => false,
            _ => true,
        }
    }

    /// Cancels one pending node and pushes the nodes it waited on onto `stack`.
    fn cancel_one(&mut self, n: usize, stack: &mut Vec<usize>)
        requires
            old(self).wf(),
            n < old(self).nodes().len(),
            is_pending(old(self).nodes()[n as int].state),
        ensures
            final(self).wf(),
            final(self).queue == old(self).queue,
            final(self).nodes() == old(self).nodes().update(
                n as int,
                Node { state: NodeState::Cancelled, waiter: old(self).nodes()[n as int].waiter },
            ),
            final(self).requests() == old(self).requests() + cancel_requests(
                n,
                old(self).nodes()[n as int].state,
            ),
            final(stack)@ == old(stack)@ + children(old(self).nodes()[n as int].state),
    {
        let state = self.take_state(n, NodeState::Cancelled);
        match state {
            NodeState::Timer { .. } => {
                self.requests.push(Request::ClearTimer { node: n });
            },
            NodeState::Transform { inner, .. } => {
                stack.push(inner);
            },
            NodeState::Forward { inner } => {
                stack.push(inner);
            },
            NodeState::Exclusive { a, b } => {
                stack.push(a);
                stack.push(b);
            },
            NodeState::Join { parts } => {
                let mut i: usize = 0;
                let ghost start = stack@;
                while i < parts.len()
                    invariant
                        i <= parts.len(),
                        stack@ == start + parts@.take(i as int),
                    decreases parts.len() - i,
                {
                    stack.push(parts[i]);
                    proof {
                        assert(parts@.take(i + 1) =~= parts@.take(i as int).push(parts[i as int]));
                    }
                    i += 1;
                }
                proof {
                    assert(parts@.take(parts.len() as int) =~= parts@);
                }
            },
            _ => {},
        }
        proof {
            assert(self.requests@ =~= old(self).requests() + cancel_requests(
                n,
                old(self).nodes()[n as int].state,
            ));
            if !(state is Exclusive) && !(state is Join) && !(state is Transform) && !(state is Forward) {
                assert(stack@ =~= old(stack)@ + children(old(self).nodes()[n as int].state));
            }
        }
    }

    /// Cancels `id` and, transitively, every pending node it waits on. A node
    /// that has resolved, been taken or been cancelled is left as it is, and a
    /// cancelled timer has its reservation cleared.
    pub fn cancel(&mut self, id: usize)
        requires
            old(self).wf(),
            id < old(self).nodes().len(),
        ensures
            final(self).wf(),
            final(self).pending() == old(self).pending(),
            final(self).insertion_point() == old(self).insertion_point(),
            final(self).nodes().len() == old(self).nodes().len(),
            forall|i: int| 0 <= i < old(self).nodes().len() ==> {
                ||| #[trigger] final(self).nodes()[i] == old(self).nodes()[i]
                ||| {
                    &&& is_pending(old(self).nodes()[i].state)
                    &&& final(self).nodes()[i].state is Cancelled
                    &&& final(self).nodes()[i].waiter == old(self).nodes()[i].waiter
                }
            },
            is_pending(old(self).nodes()[id as int].state) ==> final(self).nodes()[id as int].state
                is Cancelled,
            !is_pending(old(self).nodes()[id as int].state) ==> final(self).nodes()
                == old(self).nodes() && final(self).requests() == old(self).requests(),
            old(self).nodes()[id as int].state is Timer ==> final(self).requests()[old(
                self,
            ).requests().len() as int] == (Request::ClearTimer { node: id }),
            final(self).requests().len() >= old(self).requests().len(),
            final(self).requests().take(old(self).requests().len() as int) == old(self).requests(),
            forall|j: int|
                old(self).requests().len() <= j < final(self).requests().len() ==> {
                    &&& (#[trigger] final(self).requests()[j]) is ClearTimer
                    &&& old(self).nodes()[final(self).requests()[j]->ClearTimer_node as int].state is Timer
                },
            inputs_cancelled(old(self).nodes(), final(self).nodes(), Seq::empty()),
            timers_cleared(
                old(self).nodes(),
                final(self).nodes(),
                final(self).requests().skip(old(self).requests().len() as int),
            ),
    {
        if !self.is_pending_node(id) {
            return;
        }
        let mut stack: Vec<usize> = Vec::new();
        self.cancel_one(id, &mut stack);
        proof {
            assert(self.requests().take(old(self).requests().len() as int) =~= old(self).requests());
            assert(stack@ =~= children(old(self).nodes()[id as int].state));
            assert forall|i: int, c: int|
                0 <= i < old(self).nodes().len() && is_pending(old(self).nodes()[i].state) && self.nodes()[i].state is Cancelled
                    && 0 <= c < children(old(self).nodes()[i].state).len()
                    && #[trigger] children(old(self).nodes()[i].state)[c] < old(self).nodes().len()
                implies !is_pending(self.nodes()[children(old(self).nodes()[i].state)[c] as int].state)
                    || stack@.contains(children(old(self).nodes()[i].state)[c]) by {
                if i != id {
                    assert(self.nodes()[i] == old(self).nodes()[i]);
                } else {
                    assert(stack@[c] == children(old(self).nodes()[i].state)[c]);
                }
            }
            if old(self).nodes()[id as int].state is Timer {
                assert(self.requests().skip(old(self).requests().len() as int)[0] == Request::ClearTimer { node: id });
            }
        }
        while stack.len() > 0
            invariant
                self.wf(),
                self.queue == old(self).queue,
                self.nodes().len() == old(self).nodes().len(),
                forall|i: int| 0 <= i < old(self).nodes().len() ==> {
                    ||| #[trigger] self.nodes()[i] == old(self).nodes()[i]
                    ||| {
                        &&& is_pending(old(self).nodes()[i].state)
                        &&& self.nodes()[i].state is Cancelled
                        &&& self.nodes()[i].waiter == old(self).nodes()[i].waiter
                    }
                },
                id < old(self).nodes().len(),
                self.nodes()[id as int].state is Cancelled,
                old(self).nodes()[id as int].state is Timer ==> self.requests().len() > old(
                    self,
                ).requests().len(),
                old(self).nodes()[id as int].state is Timer ==> self.requests()[old(
                    self,
                ).requests().len() as int] == (Request::ClearTimer { node: id }),
                self.requests().len() >= old(self).requests().len(),
                self.requests().take(old(self).requests().len() as int) == old(self).requests(),
                forall|j: int|
                    old(self).requests().len() <= j < self.requests().len() ==> {
                        &&& (#[trigger] self.requests()[j]) is ClearTimer
                        &&& old(self).nodes()[self.requests()[j]->ClearTimer_node as int].state is Timer
                    },
                inputs_cancelled(old(self).nodes(), self.nodes(), stack@),
                timers_cleared(
                    old(self).nodes(),
                    self.nodes(),
                    self.requests().skip(old(self).requests().len() as int),
                ),
            decreases live_count(self.nodes()), stack.len(),
        {
            let ghost stack0 = stack@;
            let ghost nodes0 = self.nodes();
            let ghost requests0 = self.requests();
            let n = stack.pop().unwrap();
            proof {
                assert(stack@ =~= stack0.drop_last());
                assert(stack0.last() == n);
            }
            if n < self.nodes.len() && self.is_pending_node(n) {
                let ghost before = self.nodes();
                let ghost before_requests = self.requests();
                let ghost stack1 = stack@;
                self.cancel_one(n, &mut stack);
                proof {
                    let on = old(self).nodes().len();
                    assert(before[n as int] == old(self).nodes()[n as int]);
                    assert forall|i: int, c: int|
                        0 <= i < on && is_pending(old(self).nodes()[i].state) && self.nodes()[i].state is Cancelled
                            && 0 <= c < children(old(self).nodes()[i].state).len()
                            && #[trigger] children(old(self).nodes()[i].state)[c] < on
                        implies !is_pending(self.nodes()[children(old(self).nodes()[i].state)[c] as int].state)
                            || stack@.contains(children(old(self).nodes()[i].state)[c]) by {
                        let ch = children(old(self).nodes()[i].state)[c];
                        if i == n {
                            assert(stack@[stack1.len() + c] == ch);
                        } else {
                            assert(self.nodes()[i] == nodes0[i]);
                            if ch as int != n as int {
                                assert(self.nodes()[ch as int] == nodes0[ch as int]);
                                if stack0.contains(ch) {
                                    let q = choose|q: int| 0 <= q < stack0.len() && stack0[q] == ch;
                                    assert(stack@[q] == ch);
                                }
                            }
                        }
                    }
                    assert forall|i: int|
                        0 <= i < on && old(self).nodes()[i].state is Timer && (#[trigger] self.nodes()[i]).state is Cancelled
                        implies self.requests().skip(old(self).requests().len() as int).contains(Request::ClearTimer { node: i as usize }) by {
                        let ro = old(self).requests().len() as int;
                        if i == n {
                            assert(self.requests().skip(ro)[before_requests.len() - ro] == Request::ClearTimer { node: n });
                        } else {
                            assert(self.nodes()[i] == nodes0[i]);
                            let q = choose|q: int| 0 <= q < requests0.skip(ro).len() && requests0.skip(ro)[q] == Request::ClearTimer { node: i as usize };
                            assert(self.requests().skip(ro)[q] == Request::ClearTimer { node: i as usize });
                        }
                    }
                    lemma_live_count_cancel(
                        before,
                        n as int,
                        Node { state: NodeState::Cancelled, waiter: before[n as int].waiter },
                    );
                    assert(n != id);
                    assert(self.nodes()[n as int].state is Cancelled);
                    assert(before[n as int] == old(self).nodes()[n as int]);
                    assert forall|j: int|
                        old(self).requests().len() <= j < self.requests().len() implies {
                            &&& (#[trigger] self.requests()[j]) is ClearTimer
                            &&& old(self).nodes()[self.requests()[j]->ClearTimer_node as int].state is Timer
                        } by {
                        if j >= before_requests.len() {
                            assert(self.requests()[j] == Request::ClearTimer { node: n });
                        } else {
                            assert(self.requests()[j] == before_requests[j]);
                        }
                    }
                    assert(self.requests().take(old(self).requests().len() as int)
                        =~= before_requests.take(old(self).requests().len() as int));
                    if old(self).nodes()[id as int].state is Timer {
                        assert(self.requests()[old(self).requests().len() as int]
                            == before_requests[old(self).requests().len() as int]);
                    }
                }
            } else {
                proof {
                    let on = old(self).nodes().len();
                    assert forall|i: int, c: int|
                        0 <= i < on && is_pending(old(self).nodes()[i].state) && self.nodes()[i].state is Cancelled
                            && 0 <= c < children(old(self).nodes()[i].state).len()
                            && #[trigger] children(old(self).nodes()[i].state)[c] < on
                        implies !is_pending(self.nodes()[children(old(self).nodes()[i].state)[c] as int].state)
                            || stack@.contains(children(old(self).nodes()[i].state)[c]) by {
                        let ch = children(old(self).nodes()[i].state)[c];
                        if ch != n && stack0.contains(ch) {
                            let q = choose|q: int| 0 <= q < stack0.len() && stack0[q] == ch;
                            assert(stack@[q] == ch);
                        }
                    }
                }
            }
        }
    }
}

impl Promise {
    /// Drops the promise: its node and every pending node it waits on are
    /// cancelled. Dropping a promise that has already resolved changes nothing.
    pub fn cancel<V>(self, lp: &mut EventLoop<V>)
        requires
            old(lp).wf(),
            self.id < old(lp).nodes().len(),
        ensures
            final(lp).wf(),
            final(lp).pending() == old(lp).pending(),
            final(lp).nodes().len() == old(lp).nodes().len(),
            is_pending(old(lp).nodes()[self.id as int].state) ==> final(lp).nodes()[self.id as int].state
                is Cancelled,
            !is_pending(old(lp).nodes()[self.id as int].state) ==> final(lp).nodes()
                == old(lp).nodes() && final(lp).requests() == old(lp).requests(),
            forall|i: int| 0 <= i < old(lp).nodes().len() ==> {
                ||| #[trigger] final(lp).nodes()[i] == old(lp).nodes()[i]
                ||| {
                    &&& is_pending(old(lp).nodes()[i].state)
                    &&& final(lp).nodes()[i].state is Cancelled
                }
            },
            old(lp).nodes()[self.id as int].state is Timer ==> final(lp).requests()[old(
                lp,
            ).requests().len() as int] == (Request::ClearTimer { node: self.id }),
            inputs_cancelled(old(lp).nodes(), final(lp).nodes(), Seq::empty()),
            timers_cleared(
                old(lp).nodes(),
                final(lp).nodes(),
                final(lp).requests().skip(old(lp).requests().len() as int),
            ),
    {
        lp.cancel(self.id)
    }
}


/// The success of a node that has resolved successfully.
pub open spec fn ok_of<V>(n: Node<V>) -> Resolution<V> {
    n.state->Ready_0->Ok_0
}

pub open spec fn is_ready_ok<V>(n: Node<V>) -> bool {
    n.state is Ready && n.state->Ready_0 is Ok
}

pub open spec fn is_ready_err<V>(n: Node<V>) -> bool {
    n.state is Ready && n.state->Ready_0 is Err
}

/// The successes of the resolved `parts`, one for each, in order.
pub open spec fn joined_values<V>(nodes: Seq<Node<V>>, parts: Seq<usize>) -> Seq<Resolution<V>> {
    parts.map_values(|p: usize| ok_of(nodes[p as int]))
}

/// From `pre` to `post` every node but `k` stayed as it was, was cancelled
/// while pending, or, being an input of `k`, had its result taken; waiters
/// do not change.
pub open spec fn evolved<V>(pre: Seq<Node<V>>, post: Seq<Node<V>>, k: usize) -> bool {
    &&& post.len() == pre.len()
    &&& forall|i: int| 0 <= i < pre.len() && i != k ==> {
        ||| #[trigger] post[i] == pre[i]
        ||| (is_pending(pre[i].state) && post[i].state is Cancelled && post[i].waiter == pre[i].waiter)
        ||| (pre[i].state is Ready && post[i].state is Taken && post[i].waiter == pre[i].waiter
            && children(pre[k as int].state).contains(i as usize))
    }
}

/// Node `k` is an array join, and `from`, the part whose resolution armed
/// it, has failed.
pub open spec fn join_failed_by<V>(nodes: Seq<Node<V>>, k: usize, from: usize) -> bool {
    let parts = nodes[k as int].state->Join_parts@;
    &&& k < nodes.len()
    &&& nodes[k as int].state is Join
    &&& forall|i: int| 0 <= i < parts.len() ==> parts[i] < nodes.len() && parts[i] != k
    &&& parts.contains(from)
    &&& is_ready_err(nodes[from as int])
}


/// Every one of `parts` has resolved successfully.
pub open spec fn all_ready_ok<V>(nodes: Seq<Node<V>>, parts: Seq<usize>) -> bool {
    forall|i: int| 0 <= i < parts.len() ==> is_ready_ok(#[trigger] nodes[parts[i] as int])
}

/// Node `k` is an array join whose parts have all resolved successfully.
pub open spec fn join_ready<V>(nodes: Seq<Node<V>>, k: usize) -> bool {
    let parts = nodes[k as int].state->Join_parts@;
    &&& k < nodes.len()
    &&& nodes[k as int].state is Join
    &&& forall|i: int| 0 <= i < parts.len() ==> parts[i] < nodes.len() && parts[i] != k
    &&& all_ready_ok(nodes, parts)
    &&& distinct(parts)
}

pub open spec fn distinct(parts: Seq<usize>) -> bool {
    forall|i: int, j: int| 0 <= i < parts.len() && 0 <= j < parts.len() && i != j ==> parts[i] != parts[j]
}

impl<V> EventLoop<V> {
    /// Where the next depth-first event goes on the queue.
    pub closed spec fn insertion_point(&self) -> nat {
        self.queue.insertion_point()
    }

    /// Depth-first arming lands inside the queue or at its end.
    pub proof fn lemma_insertion_point_bound(&self)
        requires
            self.wf(),
        ensures
            self.insertion_point() <= self.pending().len(),
    {
        self.queue.lemma_insertion_point_bound();
    }

    /// The queue after `id` resolved during the current event.
    pub open spec fn notified(&self, id: usize) -> Seq<Event> {
        match self.nodes()[id as int].waiter {
            Some(w) => self.pending().insert(self.insertion_point() as int, Event { node: w, from: id }),
            None => self.pending(),
        }
    }

    /// `post` follows `pre` by advancing node `k`: when `k` resolved, its
    /// waiter was armed depth-first; otherwise the queue is as it was.
    pub open spec fn advanced(pre: EventLoop<V>, post: EventLoop<V>, k: usize) -> bool {
        let resolved = !(pre.nodes()[k as int].state is Ready) && post.nodes()[k as int].state is Ready;
        &&& evolved(pre.nodes(), post.nodes(), k)
        &&& !resolved && !(pre.nodes()[k as int].state is Transform && post.nodes()[k as int].state is Calling)
            ==> post.nodes() == pre.nodes()
            && post.requests() == pre.requests()
        &&& post.nodes()[k as int].waiter == pre.nodes()[k as int].waiter
        &&& post.pending() == if resolved { pre.notified(k) } else { pre.pending() }
        &&& post.insertion_point() == pre.insertion_point() + (if resolved
            && pre.nodes()[k as int].waiter is Some { 1nat } else { 0nat })
    }

    fn advance_transform(&mut self, k: usize, inner: usize, tag: u64, on_error: Option<u64>) -> (r: Step<V>)
        requires
            old(self).wf(),
            k < old(self).nodes().len(),
            inner < old(self).nodes().len(),
            old(self).nodes()[k as int].state is Transform,
            old(self).nodes()[k as int].state->Transform_inner == inner,
        ensures
            final(self).wf(),
            final(self).nodes().len() == old(self).nodes().len(),
            final(self).requests() == old(self).requests(),
            Self::advanced(*old(self), *final(self), k),
            !(old(self).nodes()[inner as int].state is Ready) ==> r is Ran && final(self).nodes()
                == old(self).nodes(),
            old(self).nodes()[inner as int].state is Ready ==> final(self).nodes() == old(self).nodes().update(
                inner as int,
                Node { state: NodeState::Taken, waiter: old(self).nodes()[inner as int].waiter },
            ).update(
                k as int,
                Node { state: final(self).nodes()[k as int].state, waiter: old(self).nodes()[k as int].waiter },
            ),
            old(self).nodes()[inner as int].state is Ready ==> {
                let res = old(self).nodes()[inner as int].state->Ready_0;
                match (res, on_error) {
                    (Err(e), None) => r is Ran && final(self).nodes()[k as int].state == NodeState::<V>::Ready(Err(e)),
                    _ => r == (Step::Call {
                        node: k,
                        tag: if res is Ok { tag } else { on_error->Some_0 },
                        arg: res,
                    }) && final(self).nodes()[k as int].state is Calling,
                }
            },
    {
        if !self.is_ready(inner) {
            return Step::Ran;
        }
        proof {
            assert(children(old(self).nodes()[k as int].state)[0] == inner);
        }
        let res = self.take_result(inner);
        match res {
            Ok(v) => {
                self.take_state(k, NodeState::Calling);
                Step::Call { node: k, tag, arg: Ok(v) }
            },
            Err(e) => match on_error {
                Some(handler) => {
                    self.take_state(k, NodeState::Calling);
                    Step::Call { node: k, tag: handler, arg: Err(e) }
                },
                None => {
                    self.resolve(k, Err(e), true);
                    Step::Ran
                },
            },
        }
    }

    fn advance_forward(&mut self, k: usize, inner: usize)
        requires
            old(self).wf(),
            k < old(self).nodes().len(),
            inner < old(self).nodes().len(),
            inner != k,
            old(self).nodes()[k as int].state is Forward,
            old(self).nodes()[k as int].state->Forward_inner == inner,
        ensures
            final(self).wf(),
            final(self).nodes().len() == old(self).nodes().len(),
            final(self).requests() == old(self).requests(),
            Self::advanced(*old(self), *final(self), k),
            !(old(self).nodes()[inner as int].state is Ready) ==> final(self).nodes() == old(self).nodes(),
            old(self).nodes()[inner as int].state is Ready ==> final(self).nodes() == old(self).nodes().update(
                inner as int,
                Node { state: NodeState::Taken, waiter: old(self).nodes()[inner as int].waiter },
            ).update(
                k as int,
                Node { state: old(self).nodes()[inner as int].state, waiter: old(self).nodes()[k as int].waiter },
            ),
    {
        if self.is_ready(inner) {
            proof {
                assert(children(old(self).nodes()[k as int].state)[0] == inner);
            }
            let res = self.take_result(inner);
            self.resolve(k, res, true);
        }
    }

    /// Resolves `k` with the result of `winner` and cancels `loser`.
    fn settle_exclusive(&mut self, k: usize, winner: usize, loser: usize)
        requires
            old(self).wf(),
            k < old(self).nodes().len(),
            winner < old(self).nodes().len(),
            loser < old(self).nodes().len(),
            k != winner && k != loser && winner != loser,
            old(self).nodes()[winner as int].state is Ready,
            old(self).nodes()[k as int].state is Exclusive,
            children(old(self).nodes()[k as int].state).contains(winner),
        ensures
            final(self).wf(),
            final(self).nodes().len() == old(self).nodes().len(),
            Self::advanced(*old(self), *final(self), k),
            final(self).nodes()[k as int].state == old(self).nodes()[winner as int].state,
            final(self).nodes()[winner as int].state is Taken,
            is_pending(old(self).nodes()[loser as int].state) ==> final(self).nodes()[loser as int].state
                is Cancelled,
            old(self).nodes()[loser as int].state is Timer ==> final(self).requests()[old(
                self,
            ).requests().len() as int] == (Request::ClearTimer { node: loser }),
            inputs_cancelled(old(self).nodes(), final(self).nodes(), Seq::empty()),
            timers_cleared(
                old(self).nodes(),
                final(self).nodes(),
                final(self).requests().skip(old(self).requests().len() as int),
            ),
    {
        let res = self.take_result(winner);
        let ghost m1 = self.nodes();
        self.cancel(loser);
        let ghost m2 = self.nodes();
        self.resolve(k, res, true);
        proof {
            let on = old(self).nodes().len();
            assert forall|i: int, c: int|
                0 <= i < on && is_pending(old(self).nodes()[i].state) && self.nodes()[i].state is Cancelled
                    && 0 <= c < children(old(self).nodes()[i].state).len()
                    && #[trigger] children(old(self).nodes()[i].state)[c] < on
                implies !is_pending(self.nodes()[children(old(self).nodes()[i].state)[c] as int].state)
                    || Seq::<usize>::empty().contains(children(old(self).nodes()[i].state)[c]) by {
                assert(i != k && i != winner);
                assert(m1[i] == old(self).nodes()[i]);
                assert(m2[i] == self.nodes()[i]);
                let ch = children(old(self).nodes()[i].state)[c];
                assert(children(m1[i].state)[c] == ch);
                assert(!is_pending(m2[ch as int].state) || Seq::<usize>::empty().contains(ch));
            }
            assert forall|i: int|
                0 <= i < on && old(self).nodes()[i].state is Timer && (#[trigger] self.nodes()[i]).state is Cancelled
                implies self.requests().skip(old(self).requests().len() as int).contains(
                    Request::ClearTimer { node: i as usize },
                ) by {
                assert(i != k && i != winner);
                assert(m1[i] == old(self).nodes()[i]);
                assert(m2[i] == self.nodes()[i]);
            }
        }
    }

    /// The join `k` takes the side `from` whose resolution armed it; a stale
    /// event changes nothing.
    fn advance_exclusive(&mut self, k: usize, a: usize, b: usize, from: usize)
        requires
            old(self).wf(),
            k < old(self).nodes().len(),
            a < old(self).nodes().len(),
            b < old(self).nodes().len(),
            k != a && k != b && a != b,
            old(self).nodes()[k as int].state is Exclusive,
            old(self).nodes()[k as int].state->Exclusive_a == a,
            old(self).nodes()[k as int].state->Exclusive_b == b,
        ensures
            final(self).wf(),
            final(self).nodes().len() == old(self).nodes().len(),
            Self::advanced(*old(self), *final(self), k),
            from == a && old(self).nodes()[a as int].state is Ready ==> {
                &&& final(self).nodes()[k as int].state == old(self).nodes()[a as int].state
                &&& is_pending(old(self).nodes()[b as int].state) ==> final(self).nodes()[b as int].state
                    is Cancelled
                &&& old(self).nodes()[b as int].state is Timer ==> final(self).requests()[old(
                    self,
                ).requests().len() as int] == (Request::ClearTimer { node: b })
            },
            from == b && old(self).nodes()[b as int].state is Ready ==> {
                &&& final(self).nodes()[k as int].state == old(self).nodes()[b as int].state
                &&& is_pending(old(self).nodes()[a as int].state) ==> final(self).nodes()[a as int].state
                    is Cancelled
                &&& old(self).nodes()[a as int].state is Timer ==> final(self).requests()[old(
                    self,
                ).requests().len() as int] == (Request::ClearTimer { node: a })
            },
            !(from == a && old(self).nodes()[a as int].state is Ready)
                && !(from == b && old(self).nodes()[b as int].state is Ready)
                ==> final(self).nodes() == old(self).nodes() && final(self).requests() == old(self).requests(),
            inputs_cancelled(old(self).nodes(), final(self).nodes(), Seq::empty()),
            timers_cleared(
                old(self).nodes(),
                final(self).nodes(),
                final(self).requests().skip(old(self).requests().len() as int),
            ),
    {
        proof {
            assert(children(old(self).nodes()[k as int].state)[0] == a);
            assert(children(old(self).nodes()[k as int].state)[1] == b);
        }
        if from == a && self.is_ready(a) {
            self.settle_exclusive(k, a, b);
        } else if from == b && self.is_ready(b) {
            self.settle_exclusive(k, b, a);
        }
    }

    /// The position of the first part that failed, if any, and whether every
    /// part has succeeded.
    fn scan_parts(&self, parts: &Vec<usize>) -> (r: (Option<usize>, bool))
        requires
            forall|i: int| 0 <= i < parts.len() ==> parts[i] < self.nodes().len(),
        ensures
            match r.0 {
                Some(i) => i < parts.len() && is_ready_err(self.nodes()[parts[i as int] as int])
                    && forall|j: int| 0 <= j < i ==> !is_ready_err(#[trigger] self.nodes()[parts[j] as int]),
                None => forall|j: int| 0 <= j < parts.len() ==> !is_ready_err(#[trigger] self.nodes()[parts[j] as int]),
            },
            r.1 == all_ready_ok(self.nodes(), parts@),
    {
        let mut all_ok = true;
        let mut i: usize = 0;
        while i < parts.len()
            invariant
                i <= parts.len(),
                forall|j: int| 0 <= j < parts.len() ==> parts[j] < self.nodes().len(),
                forall|j: int| 0 <= j < i ==> !is_ready_err(#[trigger] self.nodes()[parts[j] as int]),
                all_ok == forall|j: int| 0 <= j < i ==> is_ready_ok(#[trigger] self.nodes()[parts@[j] as int]),
            decreases parts.len() - i,
        {
            match &self.nodes[parts[i]].state {
                NodeState::Ready(Err(_)) => {
                    return (Some(i), false);
                },
                NodeState::Ready(Ok(_)) => {},
                _ => {
                    all_ok = false;
                },
            }
            i += 1;
        }
        (None, all_ok)
    }

    /// Takes the successes of all `parts`, one element each, in order.
    fn collect_parts(&mut self, parts: &Vec<usize>) -> (values: Vec<Resolution<V>>)
        requires
            distinct(parts@),
            forall|i: int| 0 <= i < parts.len() ==> parts[i] < old(self).nodes().len(),
            all_ready_ok(old(self).nodes(), parts@),
        ensures
            values@ == joined_values(old(self).nodes(), parts@),
            final(self).queue == old(self).queue,
            final(self).requests == old(self).requests,
            final(self).nodes().len() == old(self).nodes().len(),
            forall|i: int| 0 <= i < old(self).nodes().len() ==> (#[trigger] final(self).nodes()[i]).waiter
                == old(self).nodes()[i].waiter,
            forall|i: int| 0 <= i < old(self).nodes().len() && !parts@.contains(i as usize)
                ==> #[trigger] final(self).nodes()[i] == old(self).nodes()[i],
            forall|i: int| 0 <= i < old(self).nodes().len() ==> #[trigger] final(self).nodes()[i] == old(self).nodes()[i]
                || (old(self).nodes()[i].state is Ready && final(self).nodes()[i].state is Taken
                && parts@.contains(i as usize)),
    {
        let mut values: Vec<Resolution<V>> = Vec::new();
        let mut i: usize = 0;
        while i < parts.len()
            invariant
                i <= parts.len(),
                distinct(parts@),
                forall|j: int| 0 <= j < parts.len() ==> parts[j] < old(self).nodes().len(),
                all_ready_ok(old(self).nodes(), parts@),
                self.nodes().len() == old(self).nodes().len(),
                forall|j: int| i <= j < parts.len() ==> (#[trigger] self.nodes()[parts[j] as int]) == old(self).nodes()[parts[j] as int],
                forall|m: int| 0 <= m < old(self).nodes().len() ==> (#[trigger] self.nodes()[m]).waiter
                    == old(self).nodes()[m].waiter,
                forall|m: int| 0 <= m < old(self).nodes().len() && !parts@.take(i as int).contains(m as usize)
                    ==> #[trigger] self.nodes()[m] == old(self).nodes()[m],
                forall|m: int| 0 <= m < old(self).nodes().len() ==> #[trigger] self.nodes()[m] == old(self).nodes()[m]
                    || (old(self).nodes()[m].state is Ready && self.nodes()[m].state is Taken
                    && parts@.contains(m as usize)),
                values@ == joined_values(old(self).nodes(), parts@.take(i as int)),
                self.queue == old(self).queue,
                self.requests == old(self).requests,
            decreases parts.len() - i,
        {
            let part = parts[i];
            assert(is_ready_ok(old(self).nodes()[parts@[i as int] as int]));
            let ghost before = self.nodes();
            let res = self.take_result(part);
            proof {
                assert forall|m: int| 0 <= m < old(self).nodes().len() implies #[trigger] self.nodes()[m] == old(self).nodes()[m]
                    || (old(self).nodes()[m].state is Ready && self.nodes()[m].state is Taken
                    && parts@.contains(m as usize)) by {
                    if m == part as int {
                        assert(before[m] == old(self).nodes()[m]);
                        assert(parts@[i as int] == part);
                    } else {
                        assert(self.nodes()[m] == before[m]);
                    }
                }
                assert forall|j: int| i < j < parts.len() implies (#[trigger] self.nodes()[parts[j] as int])
                    == old(self).nodes()[parts[j] as int] by {
                    assert(parts[j] != parts[i as int]);
                }
                assert forall|m: int| 0 <= m < old(self).nodes().len() && !parts@.take(i + 1).contains(m as usize)
                    implies #[trigger] self.nodes()[m] == old(self).nodes()[m] by {
                    assert(parts@.take(i + 1)[i as int] == part);
                    if parts@.take(i as int).contains(m as usize) {
                        let q = choose|q: int| 0 <= q < i && parts@.take(i as int)[q] == m as usize;
                        assert(parts@.take(i + 1)[q] == m as usize);
                    }
                }
            }
            match res {
                Ok(r) => values.push(r),
                Err(_) => {},
            }
            proof {
                assert(joined_values(old(self).nodes(), parts@.take(i + 1))
                    =~= joined_values(old(self).nodes(), parts@.take(i as int)).push(ok_of(old(self).nodes()[part as int])));
            }
            i += 1;
        }
        proof {
            assert(parts@.take(parts.len() as int) =~= parts@);
        }
        values
    }

    fn find_part(parts: &Vec<usize>, from: usize) -> (r: Option<usize>)
        ensures
            r is Some ==> r->Some_0 < parts.len() && parts[r->Some_0 as int] == from,
            r is None ==> !parts@.contains(from),
    {
        let mut i: usize = 0;
        while i < parts.len()
            invariant
                i <= parts.len(),
                forall|j: int| 0 <= j < i ==> parts[j] != from,
            decreases parts.len() - i,
        {
            if parts[i] == from {
                return Some(i);
            }
            i += 1;
        }
        None
    }

    /// The join `k` fails with the part `from` whose failure armed it, and
    /// cancels the other parts; or, once every part has succeeded, resolves
    /// to their successes.
    fn advance_join(&mut self, k: usize, parts: Vec<usize>, from: usize)
        requires
            old(self).wf(),
            k < old(self).nodes().len(),
            old(self).nodes()[k as int].state is Join,
            old(self).nodes()[k as int].state->Join_parts@ == parts@,
            forall|i: int| 0 <= i < parts.len() ==> parts[i] < old(self).nodes().len() && parts[i] != k,
        ensures
            final(self).wf(),
            final(self).nodes().len() == old(self).nodes().len(),
            Self::advanced(*old(self), *final(self), k),
            parts@.contains(from) && is_ready_err(old(self).nodes()[from as int]) ==> {
                &&& final(self).nodes()[k as int].state == old(self).nodes()[from as int].state
                &&& forall|i: int| 0 <= i < parts.len() && is_pending(#[trigger] old(self).nodes()[parts[i] as int].state)
                    ==> final(self).nodes()[parts[i] as int].state is Cancelled
            },
            !(parts@.contains(from) && is_ready_err(old(self).nodes()[from as int])) && all_ready_ok(
                old(self).nodes(),
                parts@,
            ) && distinct(parts@) ==> {
                &&& final(self).nodes()[k as int].state is Ready
                &&& final(self).nodes()[k as int].state->Ready_0 is Ok
                &&& ok_of(final(self).nodes()[k as int]) is Joined
                &&& ok_of(final(self).nodes()[k as int])->Joined_0@ == joined_values(old(self).nodes(), parts@)
            },
    {
        let failed = match Self::find_part(&parts, from) {
            Some(i) => match &self.nodes[parts[i]].state {
                NodeState::Ready(Err(_)) => Some(i),
                _ => None,
            },
            None => None,
        };
        match failed {
            Some(i) => {
                let ghost n0 = self.nodes();
                proof {
                    assert(children(old(self).nodes()[k as int].state)[i as int] == parts[i as int]);
                }
                let res = self.take_result(parts[i]);
                let mut j: usize = 0;
                while j < parts.len()
                    invariant
                        self.wf(),
                        self.nodes().len() == n0.len(),
                        n0 == old(self).nodes(),
                        is_ready_err(n0[parts[i as int] as int]),
                        j <= parts.len(),
                        k < self.nodes().len(),
                        i < parts.len(),
                        self.nodes()[k as int] == n0[k as int] || (is_pending(n0[k as int].state)
                            && self.nodes()[k as int].state is Cancelled && self.nodes()[k as int].waiter
                            == n0[k as int].waiter),
                        self.pending() == old(self).pending(),
                        self.insertion_point() == old(self).insertion_point(),
                        forall|m: int| 0 <= m < parts.len() ==> parts[m] < n0.len() && parts[m] != k,
                        forall|m: int| 0 <= m < n0.len() ==> {
                            ||| #[trigger] self.nodes()[m] == n0[m]
                            ||| (m != parts[i as int] && is_pending(n0[m].state) && self.nodes()[m].state is Cancelled
                                && self.nodes()[m].waiter == n0[m].waiter)
                            ||| (m == parts[i as int] && self.nodes()[m].state is Taken && self.nodes()[m].waiter
                                == n0[m].waiter && n0[m].state is Ready)
                        },
                        forall|m: int| 0 <= m < j && is_pending(#[trigger] n0[parts[m] as int].state)
                            ==> self.nodes()[parts[m] as int].state is Cancelled,
                    decreases parts.len() - j,
                {
                    let ghost before = self.nodes();
                    self.cancel(parts[j]);
                    proof {
                        let pi = parts[i as int] as int;
                        assert forall|m: int| 0 <= m < n0.len() implies {
                            ||| #[trigger] self.nodes()[m] == n0[m]
                            ||| (m != parts[i as int] && is_pending(n0[m].state) && self.nodes()[m].state is Cancelled
                                && self.nodes()[m].waiter == n0[m].waiter)
                            ||| (m == parts[i as int] && self.nodes()[m].state is Taken && self.nodes()[m].waiter
                                == n0[m].waiter && n0[m].state is Ready)
                        } by {
                            assert(before[m] == n0[m] || (m != pi && is_pending(n0[m].state) && before[m].state is Cancelled
                                && before[m].waiter == n0[m].waiter)
                                || (m == pi && before[m].state is Taken && before[m].waiter == n0[m].waiter && n0[m].state is Ready));
                            assert(self.nodes()[m] == before[m] || (is_pending(before[m].state) && self.nodes()[m].state is Cancelled
                                && self.nodes()[m].waiter == before[m].waiter));
                        }
                        assert forall|m: int| 0 <= m <= j && is_pending(#[trigger] n0[parts[m] as int].state)
                            implies self.nodes()[parts[m] as int].state is Cancelled by {
                            let c = parts[m] as int;
                            assert(before[c] == n0[c] || (c != pi && is_pending(n0[c].state) && before[c].state is Cancelled)
                                || (c == pi && before[c].state is Taken));
                            assert(self.nodes()[c] == before[c] || (is_pending(before[c].state) && self.nodes()[c].state is Cancelled));
                            if m < j {
                                assert(before[c].state is Cancelled);
                            } else {
                                assert(c == parts[j as int]);
                            }
                        }
                        assert(self.nodes()[k as int] == before[k as int] || (is_pending(before[k as int].state)
                            && self.nodes()[k as int].state is Cancelled && self.nodes()[k as int].waiter == before[k as int].waiter));
                    }
                    j += 1;
                }
                self.resolve(k, res, true);
            },
            None => {
                let (_, all_ok) = self.scan_parts(&parts);
                if all_ok && self.parts_distinct(&parts) {
                    let values = self.collect_parts(&parts);
                    self.resolve(k, Ok(Resolution::Joined(values)), true);
                }
            },
        }
    }

    fn parts_distinct(&self, parts: &Vec<usize>) -> (r: bool)
        ensures
            r == distinct(parts@),
    {
        let mut i: usize = 0;
        while i < parts.len()
            invariant
                i <= parts.len(),
                forall|a: int, b: int| 0 <= a < i && 0 <= b < parts.len() && a != b ==> parts[a] != parts[b],
            decreases parts.len() - i,
        {
            let mut j: usize = 0;
            while j < parts.len()
                invariant
                    i < parts.len(),
                    j <= parts.len(),
                    forall|a: int, b: int| 0 <= a < i && 0 <= b < parts.len() && a != b ==> parts[a] != parts[b],
                    forall|b: int| 0 <= b < j && b != i ==> parts[i as int] != parts[b],
                decreases parts.len() - j,
            {
                if j != i && parts[i] == parts[j] {
                    return false;
                }
                j += 1;
            }
            i += 1;
        }
        true
    }

    /// What a turn does: fire the first armed event and advance its node.
    pub open spec fn turned(pre: EventLoop<V>, post: EventLoop<V>, r: Step<V>) -> bool {
        let n = pre.nodes().len();
        &&& post.wf()
        &&& post.nodes().len() == n
        &&& (r is Idle) == (pre.pending().len() == 0)
        &&& r is Idle ==> post.nodes() == pre.nodes() && post.pending() == pre.pending()
            && post.requests() == pre.requests() && post.insertion_point() == 0
        &&& pre.pending().len() > 0 ==> {
            let e = pre.pending()[0];
            let k = e.node;
            let rest = pre.pending().drop_first();
            let s = if k < n { pre.nodes()[k as int].state } else { NodeState::Taken };
            let resolved = k < n && !(s is Ready) && post.nodes()[k as int].state is Ready;
            let w = pre.nodes()[k as int].waiter;
            &&& post.pending() == if resolved && w is Some {
                rest.insert(0, Event { node: w->Some_0, from: k })
            } else {
                rest
            }
            &&& post.insertion_point() == 0
            &&& k < n ==> post.nodes()[k as int].waiter == w
            &&& evolved(pre.nodes(), post.nodes(), k)
            &&& !resolved && !(r is Call) ==> post.nodes() == pre.nodes() && post.requests() == pre.requests()
            &&& !(s is Transform || s is Forward || s is Exclusive || s is Join) ==> r is Ran
                && post.nodes() == pre.nodes() && post.requests() == pre.requests()
            &&& r is Call ==> r->node == k && s is Transform && post.nodes()[k as int].state is Calling
            &&& s is Transform && s->Transform_inner < n && pre.nodes()[s->Transform_inner as int].state is Ready
                ==> post.nodes() == pre.nodes().update(
                s->Transform_inner as int,
                Node { state: NodeState::Taken, waiter: pre.nodes()[s->Transform_inner as int].waiter },
            ).update(k as int, Node { state: post.nodes()[k as int].state, waiter: w })
            &&& s is Transform && s->Transform_inner < n && pre.nodes()[s->Transform_inner as int].state is Ready ==> {
                let res = pre.nodes()[s->Transform_inner as int].state->Ready_0;
                match (res, s->Transform_on_error) {
                    (Err(err), None) => r is Ran && post.nodes()[k as int].state == NodeState::<V>::Ready(Err(err)),
                    _ => r == (Step::Call {
                        node: k,
                        tag: if res is Ok { s->Transform_tag } else { s->Transform_on_error->Some_0 },
                        arg: res,
                    }),
                }
            }
            &&& s is Transform && s->Transform_inner < n && !(pre.nodes()[s->Transform_inner as int].state is Ready)
                ==> r is Ran && post.nodes() == pre.nodes()
            &&& s is Forward && s->Forward_inner < n && s->Forward_inner != k
                && pre.nodes()[s->Forward_inner as int].state is Ready
                ==> post.nodes() == pre.nodes().update(
                s->Forward_inner as int,
                Node { state: NodeState::Taken, waiter: pre.nodes()[s->Forward_inner as int].waiter },
            ).update(k as int, Node { state: pre.nodes()[s->Forward_inner as int].state, waiter: w })
            &&& s is Exclusive ==> {
                let a = s->Exclusive_a;
                let b = s->Exclusive_b;
                a < n && b < n && a != b && a != k && b != k ==> {
                    &&& e.from == a && pre.nodes()[a as int].state is Ready ==> {
                        &&& post.nodes()[k as int].state == pre.nodes()[a as int].state
                        &&& is_pending(pre.nodes()[b as int].state) ==> post.nodes()[b as int].state is Cancelled
                        &&& pre.nodes()[b as int].state is Timer ==> post.requests()[pre.requests().len() as int]
                            == (Request::ClearTimer { node: b })
                    }
                    &&& e.from == b && pre.nodes()[b as int].state is Ready ==> {
                        &&& post.nodes()[k as int].state == pre.nodes()[b as int].state
                        &&& is_pending(pre.nodes()[a as int].state) ==> post.nodes()[a as int].state is Cancelled
                        &&& pre.nodes()[a as int].state is Timer ==> post.requests()[pre.requests().len() as int]
                            == (Request::ClearTimer { node: a })
                    }
                    &&& !(e.from == a && pre.nodes()[a as int].state is Ready)
                        && !(e.from == b && pre.nodes()[b as int].state is Ready) ==> post.nodes() == pre.nodes()
                    &&& inputs_cancelled(pre.nodes(), post.nodes(), Seq::empty())
                    &&& timers_cleared(pre.nodes(), post.nodes(), post.requests().skip(pre.requests().len() as int))
                }
            }
            &&& join_ready(pre.nodes(), k) && !join_failed_by(pre.nodes(), k, e.from) ==> {
                &&& post.nodes()[k as int].state is Ready
                &&& post.nodes()[k as int].state->Ready_0 is Ok
                &&& ok_of(post.nodes()[k as int]) is Joined
                &&& ok_of(post.nodes()[k as int])->Joined_0@ == joined_values(pre.nodes(), s->Join_parts@)
            }
            &&& join_failed_by(pre.nodes(), k, e.from) ==> {
                let parts = s->Join_parts@;
                &&& post.nodes()[k as int].state == pre.nodes()[e.from as int].state
                &&& forall|i: int| 0 <= i < parts.len() && is_pending(#[trigger] pre.nodes()[parts[i] as int].state)
                    ==> post.nodes()[parts[i] as int].state is Cancelled
            }
        }
    }

    /// Runs one turn: takes the first armed event and advances the node it
    /// names. Returns `Idle` when nothing is armed, and `Call` when a function
    /// of the program is to run.
    pub fn turn(&mut self) -> (r: Step<V>)
        requires
            old(self).wf(),
        ensures
            Self::turned(*old(self), *final(self), r),
    {
        let e = match self.queue.turn() {
            None => {
                return Step::Idle;
            },
            Some(e) => e,
        };
        let k = e.node;
        if k >= self.nodes.len() {
            self.queue.reset_insertion_point();
            return Step::Ran;
        }
        let n = self.nodes.len();
        let r = match &self.nodes[k].state {
            NodeState::Transform { inner, tag, on_error, .. } => {
                let (inner, tag, on_error) = (*inner, *tag, *on_error);
                if inner < n {
                    self.advance_transform(k, inner, tag, on_error)
                } else {
                    Step::Ran
                }
            },
            NodeState::Forward { inner } => {
                let inner = *inner;
                if inner < n && inner != k {
                    self.advance_forward(k, inner);
                }
                Step::Ran
            },
            NodeState::Exclusive { a, b } => {
                let (a, b) = (*a, *b);
                if a < n && b < n && a != b && a != k && b != k {
                    self.advance_exclusive(k, a, b, e.from);
                }
                Step::Ran
            },
            NodeState::Join { parts } => {
                let parts = copy_ids(parts);
                if all_below(&parts, n, k) {
                    self.advance_join(k, parts, e.from);
                }
                Step::Ran
            },
            _ => Step::Ran,
        };
        self.queue.reset_insertion_point();
        r
    }

    /// What `complete` does: a value resolves `node` and arms its waiter
    /// depth-first; a promise becomes the input that `node` follows.
    pub open spec fn completed(pre: EventLoop<V>, post: EventLoop<V>, node: usize, c: Continuation<V>) -> bool {
        let w = pre.nodes()[node as int].waiter;
        &&& post.wf()
        &&& post.requests() == pre.requests()
        &&& post.nodes().len() == pre.nodes().len()
        &&& c is Value ==> post.nodes() == pre.nodes().update(
            node as int,
            Node { state: NodeState::Ready(c->Value_0), waiter: w },
        ) && post.pending() == pre.notified(node)
        &&& c is Chained && pre.nodes()[c->Chained_0.id as int].state is Ready ==> {
            let m = c->Chained_0.id;
            &&& post.nodes() == pre.nodes().update(
                m as int,
                Node { state: NodeState::Taken, waiter: pre.nodes()[m as int].waiter },
            ).update(node as int, Node { state: pre.nodes()[m as int].state, waiter: w })
            &&& post.pending() == pre.notified(node)
        }
        &&& c is Chained && !(pre.nodes()[c->Chained_0.id as int].state is Ready) ==> {
            let m = c->Chained_0.id;
            &&& post.nodes() == pre.nodes().update(
                m as int,
                Node { state: pre.nodes()[m as int].state, waiter: Some(node) },
            ).update(node as int, Node { state: NodeState::Forward { inner: m }, waiter: w })
            &&& post.pending() == pre.pending()
        }
        &&& post.insertion_point() == pre.insertion_point() + (if post.nodes()[node as int].state is Ready
            && w is Some { 1nat } else { 0nat })
    }

    /// Reports the outcome of the function that a `Call` step asked for. A
    /// promise that has already resolved gives its result at once; otherwise
    /// `node` follows it.
    pub fn complete(&mut self, node: usize, c: Continuation<V>)
        requires
            old(self).wf(),
            node < old(self).nodes().len(),
            old(self).nodes()[node as int].state is Calling,
            c is Chained ==> c->Chained_0.id < old(self).nodes().len() && c->Chained_0.id != node,
        ensures
            Self::completed(*old(self), *final(self), node, c),
    {
        let ghost c0 = c;
        match c {
            Continuation::Value(r) => self.resolve(node, r, true),
            Continuation::Chained(p) => {
                if self.is_ready(p.id) {
                    let r = self.take_result(p.id);
                    self.resolve(node, r, true);
                } else {
                    self.take_state(node, NodeState::Forward { inner: p.id });
                    self.attach(p.id, node);
                    proof {
                        assert(self.nodes() =~= old(self).nodes().update(
                            p.id as int,
                            Node { state: old(self).nodes()[p.id as int].state, waiter: Some(node) },
                        ).update(node as int, Node { state: NodeState::Forward { inner: p.id }, waiter: old(self).nodes()[node as int].waiter }));
                    }
                }
            },
        }
        assert(Self::completed(*old(self), *self, node, c0));
    }

    /// The reactor reports that the timer of `node` ran out.
    pub fn timer_expired(&mut self, node: usize)
        requires
            old(self).wf(),
            node < old(self).nodes().len(),
        ensures
            final(self).wf(),
            final(self).requests() == old(self).requests(),
            old(self).nodes()[node as int].state is Timer ==> {
                &&& final(self).nodes() == old(self).nodes().update(
                    node as int,
                    Node {
                        state: NodeState::Ready(old(self).nodes()[node as int].state->on_expiry),
                        waiter: old(self).nodes()[node as int].waiter,
                    },
                )
                &&& final(self).pending() == match old(self).nodes()[node as int].waiter {
                    Some(w) => old(self).pending().push(Event { node: w, from: node }),
                    None => old(self).pending(),
                }
            },
            !(old(self).nodes()[node as int].state is Timer) ==> final(self).nodes() == old(
                self,
            ).nodes() && final(self).pending() == old(self).pending(),
    {
        if let NodeState::Timer { .. } = &self.nodes[node].state {
            match self.take_state(node, NodeState::Taken) {
                NodeState::Timer { on_expiry } => self.resolve(node, on_expiry, false),
                _ => {},
            }
        }
    }

    /// Hands the driver what it asked of the reactor since the last call.
    pub fn take_requests(&mut self) -> (r: Vec<Request>)
        ensures
            r@ == old(self).requests(),
            final(self).requests() == Seq::<Request>::empty(),
            final(self).nodes() == old(self).nodes(),
            final(self).pending() == old(self).pending(),
            final(self).wf() == old(self).wf(),
    {
        let mut r: Vec<Request> = Vec::new();
        std::mem::swap(&mut r, &mut self.requests);
        r
    }
}

impl Promise {
    /// Takes the result of the promise once it has resolved; `None` while it
    /// is still pending.
    pub fn resolution<V>(&self, lp: &mut EventLoop<V>) -> (r: Option<Outcome<V>>)
        requires
            old(lp).wf(),
            self.id < old(lp).nodes().len(),
        ensures
            final(lp).wf(),
            final(lp).pending() == old(lp).pending(),
            old(lp).nodes()[self.id as int].state is Ready ==> {
                &&& r == Some(old(lp).nodes()[self.id as int].state->Ready_0)
                &&& final(lp).nodes() == old(lp).nodes().update(
                    self.id as int,
                    Node { state: NodeState::Taken, waiter: old(lp).nodes()[self.id as int].waiter },
                )
            },
            !(old(lp).nodes()[self.id as int].state is Ready) ==> r is None && final(lp).nodes()
                == old(lp).nodes(),
    {
        if lp.is_ready(self.id) {
            Some(lp.take_result(self.id))
        } else {
            None
        }
    }
}


fn copy_ids(v: &Vec<usize>) -> (r: Vec<usize>)
    ensures
        r@ == v@,
{
    let mut r: Vec<usize> = Vec::new();
    let mut i: usize = 0;
    while i < v.len()
        invariant
            i <= v.len(),
            r@ == v@.take(i as int),
        decreases v.len() - i,
    {
        r.push(v[i]);
        proof {
            assert(v@.take(i + 1) =~= v@.take(i as int).push(v[i as int]));
        }
        i += 1;
    }
    proof {
        assert(v@.take(v.len() as int) =~= v@);
    }
    r
}

fn all_below(v: &Vec<usize>, n: usize, k: usize) -> (r: bool)
    ensures
        r == forall|i: int| 0 <= i < v@.len() ==> v@[i] < n && v@[i] != k,
{
    let mut i: usize = 0;
    while i < v.len()
        invariant
            i <= v.len(),
            forall|j: int| 0 <= j < i ==> v[j] < n && v[j] != k,
        decreases v.len() - i,
    {
        if v[i] >= n || v[i] == k {
            return false;
        }
        i += 1;
    }
    true
}

/// One link of a chain takes one turn: when a turn hands out the function
/// of `k` and the driver completes it with a value, `k` resolves to that
/// value and the node that waits on `k` is armed first in line, so the next
/// turn advances it, ahead of everything that was armed before.
pub proof fn lemma_chain_link<V>(
    l0: EventLoop<V>,
    l1: EventLoop<V>,
    r: Step<V>,
    l2: EventLoop<V>,
    c: Continuation<V>,
)
    requires
        EventLoop::turned(l0, l1, r),
        r is Call,
        EventLoop::completed(l1, l2, r->node, c),
        c is Value,
    ensures
        l2.nodes()[r->node as int].state == NodeState::<V>::Ready(c->Value_0),
        l2.pending() == match l0.nodes()[r->node as int].waiter {
            Some(w) => l0.pending().drop_first().insert(0, Event { node: w, from: r->node }),
            None => l0.pending().drop_first(),
        },
{
    let k = r->node;
    assert(l0.pending().len() > 0);
    assert(l0.pending()[0].node == k);
    assert(!(l1.nodes()[k as int].state is Ready));
    assert(l1.insertion_point() == 0);
    assert(l1.pending() == l0.pending().drop_first());
}

/// `links` is a chain: each node after the first transforms the one
/// before it, and waits on it.
pub open spec fn is_chain<V>(nodes: Seq<Node<V>>, links: Seq<usize>) -> bool {
    &&& links.len() >= 2
    &&& forall|i: int| 0 <= i < links.len() ==> links[i] < nodes.len()
    &&& distinct(links)
    &&& forall|i: int| 1 <= i < links.len() ==> (#[trigger] nodes[links[i] as int]).state is Transform
        && nodes[links[i] as int].state->Transform_inner == links[i - 1]
    &&& forall|i: int| 0 <= i < links.len() - 1 ==> (#[trigger] nodes[links[i] as int]).waiter == Some(links[i + 1])
}

/// The state of a chain before its `i`-th function runs.
pub open spec fn chain_at<V>(start: Seq<Node<V>>, links: Seq<usize>, l: EventLoop<V>, i: int) -> bool {
    &&& l.wf()
    &&& l.nodes().len() >= start.len()
    &&& l.pending() == seq![Event { node: links[i + 1], from: links[i] }]
    &&& l.nodes()[links[i] as int].state is Ready
    &&& l.nodes()[links[i] as int].state->Ready_0 is Ok
    &&& forall|j: int| i < j < links.len() ==> #[trigger] l.nodes()[links[j] as int] == start[links[j] as int]
}

/// `post` follows `pre` by adding nodes only, as a chained function does
/// when it makes promises.
pub open spec fn grown<V>(pre: EventLoop<V>, post: EventLoop<V>) -> bool {
    &&& post.wf()
    &&& post.nodes().len() >= pre.nodes().len()
    &&& post.nodes().take(pre.nodes().len() as int) == pre.nodes()
    &&& post.pending() == pre.pending()
    &&& post.insertion_point() == pre.insertion_point()
}

/// What a chained function returned: a success, or a promise of its own
/// that has already succeeded.
pub open spec fn returns_success<V>(c: Continuation<V>, l: EventLoop<V>) -> bool {
    match c {
        Continuation::Value(r) => r is Ok,
        Continuation::Chained(q) => q.id < l.nodes().len() && l.nodes()[q.id as int].state is Ready
            && l.nodes()[q.id as int].state->Ready_0 is Ok,
    }
}

/// The result a completed link takes.
pub open spec fn result_of<V>(c: Continuation<V>, l: EventLoop<V>) -> Outcome<V> {
    match c {
        Continuation::Value(r) => r,
        Continuation::Chained(q) => l.nodes()[q.id as int].state->Ready_0,
    }
}

/// A chain of functions runs in declaration order, one turn each: when the
/// first node of a chain has succeeded, nothing else is armed, and each
/// function only makes promises of its own and returns a success (a value,
/// or a promise that has already succeeded), then the turns hand out the
/// chain's functions in order, each as the very next turn, and the last node
/// resolves to what the last function returned. `states` holds, for each
/// link, the loop before its turn, after its turn, and after its function ran.
pub proof fn lemma_chain_runs_in_order<V>(
    links: Seq<usize>,
    states: Seq<EventLoop<V>>,
    steps: Seq<Step<V>>,
    outs: Seq<Continuation<V>>,
)
    requires
        is_chain(states[0].nodes(), links),
        chain_at(states[0].nodes(), links, states[0], 0),
        steps.len() == links.len() - 1,
        outs.len() == steps.len(),
        states.len() == 3 * steps.len() + 1,
        forall|i: int| 0 <= i < steps.len() ==> EventLoop::turned(states[3 * i], #[trigger] states[3 * i + 1], steps[i]),
        forall|i: int| 0 <= i < steps.len() ==> grown(states[3 * i + 1], #[trigger] states[3 * i + 2]),
        forall|i: int| 0 <= i < steps.len() && (#[trigger] steps[i]) is Call ==> EventLoop::completed(
            states[3 * i + 2],
            states[3 * i + 3],
            steps[i]->node,
            outs[i],
        ),
        forall|i: int| 0 <= i < outs.len() ==> returns_success(#[trigger] outs[i], states[3 * i + 2]),
    ensures
        forall|i: int| 0 <= i < steps.len() ==> (#[trigger] steps[i]) is Call && steps[i]->node == links[i + 1]
            && steps[i]->tag == states[0].nodes()[links[i + 1] as int].state->Transform_tag,
        states.last().nodes()[links.last() as int].state == NodeState::<V>::Ready(
            result_of(outs.last(), states[states.len() - 2]),
        ),
{
    lemma_chain_from(links, states, steps, outs, 0);
}

proof fn lemma_chain_from<V>(
    links: Seq<usize>,
    states: Seq<EventLoop<V>>,
    steps: Seq<Step<V>>,
    outs: Seq<Continuation<V>>,
    i: int,
)
    requires
        is_chain(states[0].nodes(), links),
        0 <= i < steps.len(),
        chain_at(states[0].nodes(), links, states[3 * i], i),
        steps.len() == links.len() - 1,
        outs.len() == steps.len(),
        states.len() == 3 * steps.len() + 1,
        forall|i: int| 0 <= i < steps.len() ==> EventLoop::turned(states[3 * i], #[trigger] states[3 * i + 1], steps[i]),
        forall|i: int| 0 <= i < steps.len() ==> grown(states[3 * i + 1], #[trigger] states[3 * i + 2]),
        forall|i: int| 0 <= i < steps.len() && (#[trigger] steps[i]) is Call ==> EventLoop::completed(
            states[3 * i + 2],
            states[3 * i + 3],
            steps[i]->node,
            outs[i],
        ),
        forall|i: int| 0 <= i < outs.len() ==> returns_success(#[trigger] outs[i], states[3 * i + 2]),
    ensures
        forall|j: int| i <= j < steps.len() ==> (#[trigger] steps[j]) is Call && steps[j]->node == links[j + 1]
            && steps[j]->tag == states[0].nodes()[links[j + 1] as int].state->Transform_tag,
        states.last().nodes()[links.last() as int].state == NodeState::<V>::Ready(
            result_of(outs.last(), states[states.len() - 2]),
        ),
    decreases steps.len() - i,
{
    let start = states[0].nodes();
    let a = states[3 * i];
    let b = states[3 * i + 1];
    let b2 = states[3 * i + 2];
    let c = states[3 * i + 3];
    let k = links[i + 1];
    let inner = links[i];
    assert(EventLoop::turned(a, b, steps[i]));
    assert(grown(b, b2));
    assert(a.nodes()[k as int] == start[k as int]);
    assert(start[k as int].state is Transform && start[k as int].state->Transform_inner == inner);
    assert(a.pending()[0] == Event { node: k, from: inner });
    assert(a.pending().drop_first() =~= Seq::<Event>::empty());
    assert(steps[i] is Call);
    assert(steps[i]->node == k);
    assert(EventLoop::completed(b2, c, k, outs[i]));
    assert(returns_success(outs[i], b2));
    assert(b.insertion_point() == 0);
    assert(b.pending() =~= Seq::<Event>::empty());
    assert(b.nodes()[k as int].waiter == start[k as int].waiter);
    assert(b2.nodes()[k as int] == b.nodes()[k as int]);
    assert(c.nodes()[k as int].state == NodeState::<V>::Ready(result_of(outs[i], b2)));
    if i + 1 < steps.len() {
        assert(start[k as int].waiter == Some(links[i + 2]));
        assert(c.pending() =~= seq![Event { node: links[i + 2], from: links[i + 1] }]);
        assert forall|j: int| i + 1 < j < links.len() implies #[trigger] c.nodes()[links[j] as int]
            == start[links[j] as int] by {
            assert(links[j] != k && links[j] != inner);
            assert(a.nodes()[links[j] as int] == start[links[j] as int]);
            assert(b2.nodes()[links[j] as int] == b.nodes()[links[j] as int]);
            if outs[i] is Chained {
                assert(outs[i]->Chained_0.id != links[j]);
            }
        }
        assert(states[3 * (i + 1)] == c);
        lemma_chain_from(links, states, steps, outs, i + 1);
    } else {
        assert(states.last() == c);
        assert(states[states.len() - 2] == b2);
        assert(links.last() == k);
    }
}

/// Proof of being at the top level of an event loop, where blocking on a
/// promise is allowed. Only `EventLoop::top_level` makes one.
pub struct WaitScope {
    top_level: (),
}

/// What one step of waiting on a promise found.
pub enum WaitStep<V> {
    /// The promise has resolved to this.
    Resolved(Outcome<V>),
    /// The promise is still pending; the turn taken is this.
    Turned(Step<V>),
}

impl<V> EventLoop<V> {
    /// Creates an event loop, runs `main` at its top level, and returns what
    /// `main` returns.
    pub fn top_level<F>(main: F) -> (r: Result<(), Error>)
        where
            F: FnOnce(EventLoop<V>, WaitScope) -> Result<(), Error>,
        requires
            forall|lp: EventLoop<V>, scope: WaitScope| lp.wf() ==> main.requires((lp, scope)),
        ensures
            exists|lp: EventLoop<V>, scope: WaitScope|
                lp.wf() && lp.nodes().len() == 0 && lp.pending().len() == 0 && lp.insertion_point() == 0
                    && lp.requests().len() == 0 && main.ensures((lp, scope), r),
    {
        let lp = EventLoop::new();
        let scope = WaitScope { top_level: () };
        let ghost glp = lp;
        let ghost gscope = scope;
        let r = main(lp, scope);
        assert(glp.wf() && glp.nodes().len() == 0 && glp.pending().len() == 0 && glp.insertion_point() == 0
            && glp.requests().len() == 0 && main.ensures((glp, gscope), r));
        r
    }
}

impl Promise {
    /// One step of waiting on the promise at top level: takes its result if
    /// it has resolved, and otherwise runs one turn. The driver repeats the
    /// step, running the functions that `Call` asks for and waiting for the
    /// reactor on `Idle`, until the promise resolves.
    pub fn wait_step<V>(&self, lp: &mut EventLoop<V>, _scope: &WaitScope) -> (r: WaitStep<V>)
        requires
            old(lp).wf(),
            self.id < old(lp).nodes().len(),
        ensures
            final(lp).wf(),
            final(lp).nodes().len() == old(lp).nodes().len(),
            old(lp).nodes()[self.id as int].state is Ready ==> r == WaitStep::Resolved(
                old(lp).nodes()[self.id as int].state->Ready_0,
            ) && final(lp).nodes()[self.id as int].state is Taken,
            !(old(lp).nodes()[self.id as int].state is Ready) ==> r is Turned && EventLoop::turned(
                *old(lp),
                *final(lp),
                r->Turned_0,
            ),
    {
        if lp.is_ready(self.id) {
            WaitStep::Resolved(lp.take_result(self.id))
        } else {
            WaitStep::Turned(lp.turn())
        }
    }
}

/// Receives the failures of the tasks of a `TaskSet`.
pub trait ErrorHandler {
    fn task_failed(&mut self, error: Error);
}

/// Promises run for their effect; failures go to an error handler, and
/// dropping the set cancels what has not finished.
pub struct TaskSet<H: ErrorHandler> {
    tasks: Vec<usize>,
    error_handler: H,
}

impl<H: ErrorHandler> TaskSet<H> {
    /// The ids of the tasks not yet reaped.
    pub closed spec fn tasks(&self) -> Seq<usize> {
        self.tasks@
    }

    pub closed spec fn handler(&self) -> H {
        self.error_handler
    }

    pub fn new(error_handler: H) -> (r: TaskSet<H>)
        ensures
            r.tasks() == Seq::<usize>::empty(),
            r.handler() == error_handler,
    {
        TaskSet { tasks: Vec::new(), error_handler }
    }

    pub fn error_handler(&self) -> (r: &H)
        ensures
            *r == self.handler(),
    {
        &self.error_handler
    }

    /// Adds a task; a promise already in the set is not added twice.
    pub fn add(&mut self, promise: Promise)
        ensures
            final(self).tasks() == if old(self).tasks().contains(promise.id) {
                old(self).tasks()
            } else {
                old(self).tasks().push(promise.id)
            },
            final(self).handler() == old(self).handler(),
            distinct(old(self).tasks()) ==> distinct(final(self).tasks()),
    {
        let mut i: usize = 0;
        while i < self.tasks.len()
            invariant
                i <= self.tasks.len(),
                forall|j: int| 0 <= j < i ==> self.tasks[j] != promise.id,
            decreases self.tasks.len() - i,
        {
            if self.tasks[i] == promise.id {
                return;
            }
            i += 1;
        }
        self.tasks.push(promise.id);
    }

    /// Takes the results of the tasks that have resolved, hands each failure
    /// to the error handler and returns the failures, in order; keeps the
    /// tasks still pending, in order.
    pub fn reap<V>(&mut self, lp: &mut EventLoop<V>) -> (failed: Vec<Error>)
        requires
            old(lp).wf(),
            forall|i: int| 0 <= i < old(self).tasks().len() ==> old(self).tasks()[i] < old(lp).nodes().len(),
            distinct(old(self).tasks()),
        ensures
            final(lp).wf(),
            final(lp).nodes().len() == old(lp).nodes().len(),
            final(lp).pending() == old(lp).pending(),
            failed@ == failures(old(lp).nodes(), old(self).tasks()),
            final(self).tasks() == old(self).tasks().filter(|t: usize| !(old(lp).nodes()[t as int].state is Ready)),
    {
        let mut kept: Vec<usize> = Vec::new();
        let mut failed: Vec<Error> = Vec::new();
        let mut i: usize = 0;
        let ghost n0 = lp.nodes();
        while i < self.tasks.len()
            invariant
                lp.wf(),
                i <= self.tasks.len(),
                self.tasks@ == old(self).tasks(),
                lp.nodes().len() == n0.len(),
                lp.pending() == old(lp).pending(),
                n0 == old(lp).nodes(),
                forall|j: int| 0 <= j < self.tasks.len() ==> self.tasks[j] < n0.len(),
                distinct(self.tasks@),
                forall|j: int| i <= j < self.tasks.len() ==> (#[trigger] lp.nodes()[self.tasks[j] as int])
                    == n0[self.tasks[j] as int],
                kept@ == self.tasks@.take(i as int).filter(|t: usize| !(n0[t as int].state is Ready)),
                failed@ == failures(n0, self.tasks@.take(i as int)),
            decreases self.tasks.len() - i,
        {
            let t = self.tasks[i];
            let was_ready = lp.is_ready(t);
            match (Promise { id: t }).resolution(lp) {
                Some(Err(e)) => {
                    self.error_handler.task_failed(e);
                    failed.push(e);
                },
                _ => {},
            }
            proof {
                assert forall|j: int| i < j < self.tasks.len() implies (#[trigger] lp.nodes()[self.tasks[j] as int])
                    == n0[self.tasks[j] as int] by {
                    assert(self.tasks[j] != self.tasks[i as int]);
                }
                assert(self.tasks@.take(i + 1).drop_last() =~= self.tasks@.take(i as int));
                reveal(Seq::filter);
                assert(failures(n0, self.tasks@.take(i + 1)) =~= if is_ready_err(n0[t as int]) {
                    failures(n0, self.tasks@.take(i as int)).push(n0[t as int].state->Ready_0->Err_0)
                } else {
                    failures(n0, self.tasks@.take(i as int))
                });
            }
            if !was_ready {
                kept.push(t);
            }
            i += 1;
        }
        proof {
            assert(self.tasks@.take(self.tasks.len() as int) =~= self.tasks@);
        }
        self.tasks = kept;
        failed
    }

    /// Drops the set: every task that has not finished is cancelled.
    pub fn cancel<V>(self, lp: &mut EventLoop<V>)
        requires
            old(lp).wf(),
            forall|i: int| 0 <= i < self.tasks().len() ==> self.tasks()[i] < old(lp).nodes().len(),
        ensures
            final(lp).wf(),
            final(lp).nodes().len() == old(lp).nodes().len(),
            final(lp).pending() == old(lp).pending(),
            forall|i: int| 0 <= i < self.tasks().len() && is_pending(#[trigger] old(lp).nodes()[self.tasks()[i] as int].state)
                ==> final(lp).nodes()[self.tasks()[i] as int].state is Cancelled,
            forall|m: int| 0 <= m < old(lp).nodes().len() ==> {
                ||| #[trigger] final(lp).nodes()[m] == old(lp).nodes()[m]
                ||| (is_pending(old(lp).nodes()[m].state) && final(lp).nodes()[m].state is Cancelled)
            },
            final(lp).requests().len() >= old(lp).requests().len(),
            final(lp).requests().take(old(lp).requests().len() as int) == old(lp).requests(),
            timers_cleared(
                old(lp).nodes(),
                final(lp).nodes(),
                final(lp).requests().skip(old(lp).requests().len() as int),
            ),
    {
        let mut j: usize = 0;
        while j < self.tasks.len()
            invariant
                lp.wf(),
                j <= self.tasks.len(),
                lp.nodes().len() == old(lp).nodes().len(),
                lp.pending() == old(lp).pending(),
                forall|m: int| 0 <= m < self.tasks.len() ==> self.tasks[m] < old(lp).nodes().len(),
                forall|m: int| 0 <= m < old(lp).nodes().len() ==> {
                    ||| #[trigger] lp.nodes()[m] == old(lp).nodes()[m]
                    ||| (is_pending(old(lp).nodes()[m].state) && lp.nodes()[m].state is Cancelled)
                },
                forall|m: int| 0 <= m < j && is_pending(#[trigger] old(lp).nodes()[self.tasks[m] as int].state)
                    ==> lp.nodes()[self.tasks[m] as int].state is Cancelled,
                lp.requests().len() >= old(lp).requests().len(),
                lp.requests().take(old(lp).requests().len() as int) == old(lp).requests(),
                timers_cleared(old(lp).nodes(), lp.nodes(), lp.requests().skip(old(lp).requests().len() as int)),
            decreases self.tasks.len() - j,
        {
            let ghost before = lp.nodes();
            let ghost before_req = lp.requests();
            lp.cancel(self.tasks[j]);
            proof {
                let ro = old(lp).requests().len() as int;
                let br = before_req.len() as int;
                assert(lp.requests().take(ro) =~= before_req.take(br).take(ro));
                assert forall|i: int|
                    0 <= i < old(lp).nodes().len() && old(lp).nodes()[i].state is Timer && (#[trigger] lp.nodes()[i]).state
                        is Cancelled implies lp.requests().skip(ro).contains(Request::ClearTimer { node: i as usize }) by {
                    let t = Request::ClearTimer { node: i as usize };
                    assert(before[i] == old(lp).nodes()[i] || (is_pending(old(lp).nodes()[i].state) && before[i].state is Cancelled));
                    if before[i].state is Cancelled {
                        assert(before_req.skip(ro).contains(t));
                        let q = choose|q: int| 0 <= q < before_req.skip(ro).len() && before_req.skip(ro)[q] == t;
                        assert(lp.requests()[ro + q] == before_req[ro + q]);
                        assert(lp.requests().skip(ro)[q] == t);
                    } else {
                        assert(before[i] == old(lp).nodes()[i]);
                        assert(lp.requests().skip(br).contains(t));
                        let q = choose|q: int| 0 <= q < lp.requests().skip(br).len() && lp.requests().skip(br)[q] == t;
                        assert(lp.requests().skip(ro)[br - ro + q] == t);
                    }
                }
                assert forall|m: int| 0 <= m < old(lp).nodes().len() implies {
                    ||| #[trigger] lp.nodes()[m] == old(lp).nodes()[m]
                    ||| (is_pending(old(lp).nodes()[m].state) && lp.nodes()[m].state is Cancelled)
                } by {
                    assert(before[m] == old(lp).nodes()[m] || (is_pending(old(lp).nodes()[m].state) && before[m].state is Cancelled));
                    assert(lp.nodes()[m] == before[m] || (is_pending(before[m].state) && lp.nodes()[m].state is Cancelled));
                }
                assert forall|m: int| 0 <= m <= j && is_pending(#[trigger] old(lp).nodes()[self.tasks[m] as int].state)
                    implies lp.nodes()[self.tasks[m] as int].state is Cancelled by {
                    let c = self.tasks[m] as int;
                    assert(before[c] == old(lp).nodes()[c] || (is_pending(old(lp).nodes()[c].state) && before[c].state is Cancelled));
                    assert(lp.nodes()[c] == before[c] || (is_pending(before[c].state) && lp.nodes()[c].state is Cancelled));
                }
            }
            j += 1;
        }
    }
}

/// The failures among `tasks` that have resolved, in order.
pub open spec fn failures<V>(nodes: Seq<Node<V>>, tasks: Seq<usize>) -> Seq<Error> {
    tasks.filter(|t: usize| is_ready_err(nodes[t as int])).map_values(
        |t: usize| nodes[t as int].state->Ready_0->Err_0,
    )
}

} // verus!
