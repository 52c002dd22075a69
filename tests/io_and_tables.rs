use gj::event_queue::EventQueue;
use gj::handle_table::{Handle, HandleTable};
use gj::io::{
    read_outcome, FdObserver, IoStep, MioEventPort, ReadEvent, ReadProgress, Slice, WriteEvent,
    WriteProgress,
};
use gj::promise::{Error, EventLoop, Resolution};

#[test]
fn premature_eof() {
    let mut progress = ReadProgress::new(10, 10);
    assert!(progress.wants_more());
    assert_eq!(progress.on_read(ReadEvent::Bytes(0)), IoStep::Done);
    assert_eq!(progress.already_read, 0);
    assert_eq!(read_outcome(progress.already_read, 10), Err(Error::PrematureEof));
}

#[test]
fn read_accumulates_until_min_bytes() {
    let mut progress = ReadProgress::new(5, 8);
    assert_eq!(progress.on_read(ReadEvent::Bytes(2)), IoStep::Again);
    assert_eq!(progress.on_read(ReadEvent::WouldBlock), IoStep::Suspend);
    assert_eq!(progress.already_read, 2);
    assert_eq!(progress.on_read(ReadEvent::Bytes(4)), IoStep::Done);
    assert_eq!(progress.already_read, 6);
    assert!(!progress.wants_more());
    assert_eq!(read_outcome(6, 5), Ok(6));
}

#[test]
fn write_advances_over_partial_writes() {
    let mut progress = WriteProgress::new(5);
    assert_eq!(progress.on_write(WriteEvent::Wrote(3)), IoStep::Again);
    assert_eq!(progress.on_write(WriteEvent::WouldBlock), IoStep::Suspend);
    assert_eq!(progress.on_write(WriteEvent::Wrote(2)), IoStep::Done);
    assert_eq!(progress.already_written, 5);
    assert!(!progress.wants_more());
}

#[test]
fn slice_shows_a_prefix() {
    let s = Slice::new(b"hello world".to_vec(), 5);
    assert_eq!(s.bytes(), b"hello");
    let empty = Slice::new(vec![1, 2, 3], 0);
    assert_eq!(empty.bytes(), b"");
}

#[test]
fn handle_table_reuses_released_handles() {
    let mut t = HandleTable::new();
    let a = t.push("a");
    let b = t.push("b");
    assert!(a != b);
    assert_eq!(t.remove(a), "a");
    assert!(!t.contains(a));
    let c = t.push("c");
    assert_eq!(c, a);
    assert_eq!(*t.get(b), "b");
    assert_eq!(*t.get(c), "c");
    t.set(b, "B");
    assert_eq!(*t.get(b), "B");
    assert!(!t.contains(Handle { val: 7 }));
}

#[test]
fn queue_orders_depth_first_before_breadth_first() {
    let mut q = EventQueue::new();
    assert!(q.is_empty());
    q.arm_breadth_first(1);
    q.arm_breadth_first(2);
    assert_eq!(q.turn(), Some(1));
    q.arm_breadth_first(3);
    q.arm_depth_first(10);
    q.arm_depth_first(11);
    assert_eq!(q.turn(), Some(10));
    assert_eq!(q.turn(), Some(11));
    assert_eq!(q.turn(), Some(2));
    assert_eq!(q.turn(), Some(3));
    assert_eq!(q.turn(), None);
    assert!(q.is_empty());
}

#[test]
fn readiness_fulfills_the_waiting_observer() {
    let mut lp = EventLoop::<i64>::new();
    let mut port = MioEventPort::new();
    let h = FdObserver::new(&mut port);
    let p = FdObserver::when_becomes_readable(&mut port, &mut lp, h);
    let w = FdObserver::when_becomes_writable(&mut port, &mut lp, h);
    port.writable(&mut lp, h);
    assert!(lp.is_ready(w.id));
    assert!(!lp.is_ready(p.id));
    port.writable(&mut lp, h);
    port.readable(&mut lp, h);
    assert_eq!(p.resolution(&mut lp), Some(Ok(Resolution::Unit)));
    port.readable(&mut lp, h);
    port.deregister(&mut lp, h);
    port.readable(&mut lp, h);
    let again = FdObserver::new(&mut port);
    assert_eq!(again, h);
    let waiting = FdObserver::when_becomes_readable(&mut port, &mut lp, again);
    port.deregister(&mut lp, again);
    assert_eq!(waiting.resolution(&mut lp), Some(Err(Error::BrokenPromise)));
}
