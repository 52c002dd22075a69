//! The readiness side of the runtime: per-descriptor observers whose
//! fulfillers the reactor resolves, and the progress rules of nonblocking
//! reads and writes.
use vstd::prelude::*;
use vstd::slice::slice_subrange;
use crate::handle_table::{Handle, HandleTable};
use crate::promise::{
    new_promise_and_fulfiller, Error, Event, Outcome, EventLoop, PromiseFulfiller, Node, NodeState, Promise, Resolution,
};

verus! {

/// An owned buffer presented through its first `end` bytes.
pub struct Slice {
    pub buf: Vec<u8>,
    pub end: usize,
}

impl Slice {
    pub fn new(buf: Vec<u8>, end: usize) -> (r: Slice)
        ensures
            r.buf == buf,
            r.end == end,
    {
        Slice { buf, end }
    }

    /// The bytes in view: `buf[0..end]`.
    pub fn bytes(&self) -> (r: &[u8])
        requires
            self.end <= self.buf.len(),
        ensures
            r@ == self.buf@.take(self.end as int),
    {
        let r = slice_subrange(self.buf.as_slice(), 0, self.end);
        assert(r@ =~= self.buf@.take(self.end as int));
        r
    }
}

/// What one nonblocking read attempt reported.
#[derive(Clone, Copy, PartialEq, Eq, Structural, Debug)]
pub enum ReadEvent {
    /// This many bytes were read; zero means the end of the stream.
    Bytes(usize),
    /// Reading would block.
    WouldBlock,
}

/// What a stream operation does next.
#[derive(Clone, Copy, PartialEq, Eq, Structural, Debug)]
pub enum IoStep {
    /// Try again at once.
    Again,
    /// The operation is complete.
    Done,
    /// Wait until the descriptor becomes ready, then try again.
    Suspend,
}

/// A read that fills a buffer until at least `min_bytes` have arrived or
/// the stream ends.
#[derive(Clone, Copy, PartialEq, Eq, Structural, Debug)]
pub struct ReadProgress {
    pub already_read: usize,
    pub min_bytes: usize,
    pub buf_len: usize,
}

impl ReadProgress {
    pub fn new(min_bytes: usize, buf_len: usize) -> (r: ReadProgress)
        ensures
            r == (ReadProgress { already_read: 0, min_bytes, buf_len }),
    {
        ReadProgress { already_read: 0, min_bytes, buf_len }
    }

    /// Whether another read attempt is due.
    pub fn wants_more(&self) -> (r: bool)
        ensures
            r == (self.already_read < self.min_bytes),
    {
        self.already_read < self.min_bytes
    }

    /// Accounts for one read attempt into `buf[already_read..]`.
    pub fn on_read(&mut self, event: ReadEvent) -> (step: IoStep)
        requires
            old(self).already_read <= old(self).buf_len,
            old(self).already_read < old(self).min_bytes,
            event matches ReadEvent::Bytes(n) ==> n <= old(self).buf_len - old(self).already_read,
        ensures
            final(self).min_bytes == old(self).min_bytes,
            final(self).buf_len == old(self).buf_len,
            final(self).already_read <= final(self).buf_len,
            match event {
                ReadEvent::WouldBlock => step == IoStep::Suspend && *final(self) == *old(self),
                ReadEvent::Bytes(n) => if n == 0 {
                    step == IoStep::Done && *final(self) == *old(self)
                } else {
                    &&& final(self).already_read == old(self).already_read + n
                    &&& step == if final(self).already_read < final(self).min_bytes {
                        IoStep::Again
                    } else {
                        IoStep::Done
                    }
                },
            },
    {
        match event {
            ReadEvent::WouldBlock => IoStep::Suspend,
            ReadEvent::Bytes(n) => {
                if n == 0 {
                    IoStep::Done
                } else {
                    self.already_read = self.already_read + n;
                    if self.already_read < self.min_bytes {
                        IoStep::Again
                    } else {
                        IoStep::Done
                    }
                }
            },
        }
    }
}

/// The result of `read` from that of `try_read`: fewer than `min_bytes` is
/// a premature end of the stream.
pub fn read_outcome(n: usize, min_bytes: usize) -> (r: Result<usize, Error>)
    ensures
        n < min_bytes ==> r == Err::<usize, Error>(Error::PrematureEof),
        n >= min_bytes ==> r == Ok::<usize, Error>(n),
{
    if n < min_bytes {
        Err(Error::PrematureEof)
    } else {
        Ok(n)
    }
}

/// What one nonblocking write attempt reported.
#[derive(Clone, Copy, PartialEq, Eq, Structural, Debug)]
pub enum WriteEvent {
    Wrote(usize),
    WouldBlock,
}

/// A write of a whole buffer of `len` bytes.
#[derive(Clone, Copy, PartialEq, Eq, Structural, Debug)]
pub struct WriteProgress {
    pub already_written: usize,
    pub len: usize,
}

impl WriteProgress {
    pub fn new(len: usize) -> (r: WriteProgress)
        ensures
            r == (WriteProgress { already_written: 0, len }),
    {
        WriteProgress { already_written: 0, len }
    }

    pub fn wants_more(&self) -> (r: bool)
        ensures
            r == (self.already_written < self.len),
    {
        self.already_written < self.len
    }

    /// Accounts for one write attempt of `buf[already_written..]`.
    pub fn on_write(&mut self, event: WriteEvent) -> (step: IoStep)
        requires
            old(self).already_written < old(self).len,
            event matches WriteEvent::Wrote(n) ==> n <= old(self).len - old(self).already_written,
        ensures
            final(self).len == old(self).len,
            final(self).already_written <= final(self).len,
            match event {
                WriteEvent::WouldBlock => step == IoStep::Suspend && *final(self) == *old(self),
                WriteEvent::Wrote(n) => {
                    &&& final(self).already_written == old(self).already_written + n
                    &&& step == if final(self).already_written < final(self).len {
                        IoStep::Again
                    } else {
                        IoStep::Done
                    }
                },
            },
    {
        match event {
            WriteEvent::WouldBlock => IoStep::Suspend,
            WriteEvent::Wrote(n) => {
                self.already_written = self.already_written + n;
                if self.already_written < self.len {
                    IoStep::Again
                } else {
                    IoStep::Done
                }
            },
        }
    }
}

/// The fulfillers waiting on one descriptor, by promise id.
#[derive(Clone, Copy, PartialEq, Eq, Structural, Debug)]
pub struct FdObserver {
    pub read_fulfiller: Option<usize>,
    pub write_fulfiller: Option<usize>,
}

/// The reactor's table of observers, keyed by the token of each descriptor.
pub struct MioEventPort {
    observers: HandleTable<FdObserver>,
}

impl MioEventPort {
    pub closed spec fn wf(&self) -> bool {
        self.observers.wf()
    }

    pub closed spec fn observers(&self) -> Map<usize, FdObserver> {
        self.observers@
    }

    pub fn new() -> (r: MioEventPort)
        ensures
            r.wf(),
            r.observers() == Map::<usize, FdObserver>::empty(),
    {
        MioEventPort { observers: HandleTable::new() }
    }

    pub fn observer(&self, h: Handle) -> (r: Option<FdObserver>)
        ensures
            r == if self.observers().contains_key(h.val) {
                Some(self.observers()[h.val])
            } else {
                None::<FdObserver>
            },
    {
        if self.observers.contains(h) {
            Some(*self.observers.get(h))
        } else {
            None
        }
    }

    /// The fulfiller `f` taken from an observer settles its promise with
    /// `r`: a hub that still waits resolves, and the node that waits on it is
    /// armed at the tail of the queue; anything else stays as it was.
    pub open spec fn settled<V>(pre: EventLoop<V>, post: EventLoop<V>, f: Option<usize>, r: Outcome<V>) -> bool {
        let live = f is Some && f->Some_0 < pre.nodes().len() && pre.nodes()[f->Some_0 as int].state is Hub;
        let id = f->Some_0;
        &&& post.wf()
        &&& post.requests() == pre.requests()
        &&& post.insertion_point() == pre.insertion_point()
        &&& live ==> post.nodes() == pre.nodes().update(
            id as int,
            Node { state: NodeState::Ready(r), waiter: pre.nodes()[id as int].waiter },
        ) && post.pending() == match pre.nodes()[id as int].waiter {
            Some(w) => pre.pending().push(Event { node: w, from: id }),
            None => pre.pending(),
        }
        &&& !live ==> post.nodes() == pre.nodes() && post.pending() == pre.pending()
    }

    /// What readiness of the descriptor of `h` does: the observer gives up
    /// the fulfiller of that direction, which resolves its promise with unit.
    pub open spec fn dispatched<V>(
        pre: MioEventPort,
        post: MioEventPort,
        pre_lp: EventLoop<V>,
        post_lp: EventLoop<V>,
        h: Handle,
        readable: bool,
    ) -> bool {
        let o = pre.observers()[h.val];
        let f = if readable { o.read_fulfiller } else { o.write_fulfiller };
        &&& post.wf()
        &&& !pre.observers().contains_key(h.val) ==> post.observers() == pre.observers()
            && Self::settled(pre_lp, post_lp, None, Ok(Resolution::Unit))
        &&& pre.observers().contains_key(h.val) ==> {
            &&& post.observers() == pre.observers().insert(
                h.val,
                if readable {
                    FdObserver { read_fulfiller: None, ..o }
                } else {
                    FdObserver { write_fulfiller: None, ..o }
                },
            )
            &&& Self::settled(pre_lp, post_lp, f, Ok(Resolution::Unit))
        }
    }

    /// Removes the observer of a descriptor that leaves the reactor; the
    /// promises still waiting on it reject with `BrokenPromise`, and what
    /// waits on them is armed at the tail.
    pub fn deregister<V>(&mut self, lp: &mut EventLoop<V>, h: Handle)
        requires
            old(self).wf(),
            old(lp).wf(),
        ensures
            final(self).wf(),
            final(self).observers() == old(self).observers().remove(h.val),
            !old(self).observers().contains_key(h.val) ==> *final(lp) == *old(lp),
            old(self).observers().contains_key(h.val) ==> exists|mid: EventLoop<V>|
                #[trigger] Self::settled(*old(lp), mid, old(self).observers()[h.val].read_fulfiller, Err(Error::BrokenPromise))
                    && Self::settled(mid, *final(lp), old(self).observers()[h.val].write_fulfiller, Err(Error::BrokenPromise)),
    {
        if !self.observers.contains(h) {
            assert(old(self).observers().remove(h.val) =~= old(self).observers());
            return;
        }
        let o = self.observers.remove(h);
        Self::settle_taken(lp, o.read_fulfiller, Err(Error::BrokenPromise));
        let ghost mid = *lp;
        Self::settle_taken(lp, o.write_fulfiller, Err(Error::BrokenPromise));
        assert(Self::settled(*old(lp), mid, o.read_fulfiller, Err(Error::BrokenPromise)));
    }

    fn settle_taken<V>(lp: &mut EventLoop<V>, f: Option<usize>, r: Outcome<V>)
        requires
            old(lp).wf(),
        ensures
            Self::settled(*old(lp), *final(lp), f, r),
    {
        match f {
            Some(id) => {
                if id < lp.nodes_len() {
                    PromiseFulfiller { id }.settle(lp, r);
                }
            },
            None => {},
        }
    }

    /// Takes the fulfiller of one direction and resolves its promise; a
    /// readiness nobody waits for is ignored.
    fn dispatch<V>(&mut self, lp: &mut EventLoop<V>, h: Handle, readable: bool)
        requires
            old(self).wf(),
            old(lp).wf(),
        ensures
            Self::dispatched(*old(self), *final(self), *old(lp), *final(lp), h, readable),
    {
        if !self.observers.contains(h) {
            return;
        }
        let o = *self.observers.get(h);
        let f = if readable { o.read_fulfiller } else { o.write_fulfiller };
        if readable {
            self.observers.set(h, FdObserver { read_fulfiller: None, ..o });
        } else {
            self.observers.set(h, FdObserver { write_fulfiller: None, ..o });
        }
        Self::settle_taken(lp, f, Ok(Resolution::Unit));
    }

    /// The reactor reports that the descriptor of `h` became readable.
    pub fn readable<V>(&mut self, lp: &mut EventLoop<V>, h: Handle)
        requires
            old(self).wf(),
            old(lp).wf(),
        ensures
            Self::dispatched(*old(self), *final(self), *old(lp), *final(lp), h, true),
    {
        self.dispatch(lp, h, true)
    }

    /// The reactor reports that the descriptor of `h` became writable.
    pub fn writable<V>(&mut self, lp: &mut EventLoop<V>, h: Handle)
        requires
            old(self).wf(),
            old(lp).wf(),
        ensures
            Self::dispatched(*old(self), *final(self), *old(lp), *final(lp), h, false),
    {
        self.dispatch(lp, h, false)
    }
}

impl FdObserver {
    /// Registers a fresh observer and returns its handle, the descriptor's token.
    pub fn new(port: &mut MioEventPort) -> (h: Handle)
        requires
            old(port).wf(),
        ensures
            final(port).wf(),
            !old(port).observers().contains_key(h.val),
            final(port).observers() == old(port).observers().insert(
                h.val,
                FdObserver { read_fulfiller: None, write_fulfiller: None },
            ),
    {
        port.observers.push(FdObserver { read_fulfiller: None, write_fulfiller: None })
    }

    /// A promise that resolves when the descriptor of `h` becomes readable.
    pub fn when_becomes_readable<V>(port: &mut MioEventPort, lp: &mut EventLoop<V>, h: Handle) -> (p: Promise)
        requires
            old(port).wf(),
            old(lp).wf(),
            old(port).observers().contains_key(h.val),
            old(port).observers()[h.val].read_fulfiller is None,
        ensures
            final(port).wf(),
            final(lp).wf(),
            p.id == old(lp).nodes().len(),
            final(lp).nodes() == old(lp).nodes().push(Node { state: NodeState::Hub, waiter: None }),
            final(port).observers() == old(port).observers().insert(
                h.val,
                FdObserver { read_fulfiller: Some(p.id), ..old(port).observers()[h.val] },
            ),
            final(lp).pending() == old(lp).pending(),
            final(lp).insertion_point() == old(lp).insertion_point(),
            final(lp).requests() == old(lp).requests(),
    {
        let (p, f) = new_promise_and_fulfiller(lp);
        let o = *port.observers.get(h);
        port.observers.set(h, FdObserver { read_fulfiller: Some(f.id), ..o });
        p
    }

    /// A promise that resolves when the descriptor of `h` becomes writable.
    pub fn when_becomes_writable<V>(port: &mut MioEventPort, lp: &mut EventLoop<V>, h: Handle) -> (p: Promise)
        requires
            old(port).wf(),
            old(lp).wf(),
            old(port).observers().contains_key(h.val),
            old(port).observers()[h.val].write_fulfiller is None,
        ensures
            final(port).wf(),
            final(lp).wf(),
            p.id == old(lp).nodes().len(),
            final(lp).nodes() == old(lp).nodes().push(Node { state: NodeState::Hub, waiter: None }),
            final(port).observers() == old(port).observers().insert(
                h.val,
                FdObserver { write_fulfiller: Some(p.id), ..old(port).observers()[h.val] },
            ),
            final(lp).pending() == old(lp).pending(),
            final(lp).insertion_point() == old(lp).insertion_point(),
            final(lp).requests() == old(lp).requests(),
    {
        let (p, f) = new_promise_and_fulfiller(lp);
        let o = *port.observers.get(h);
        port.observers.set(h, FdObserver { write_fulfiller: Some(f.id), ..o });
        p
    }
}

} // verus!
