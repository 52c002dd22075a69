//! A single-threaded cooperative concurrency runtime built around promises:
//! a handle table, the event queue that schedules continuations, the promise
//! engine, and the readiness bookkeeping that lets I/O resolve promises.
pub mod handle_table;
pub mod event_queue;
pub mod promise;
pub mod io;
