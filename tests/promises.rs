use gj::promise::{
    join_promises, new_promise_and_fulfiller, Continuation, Error, ErrorHandler, EventLoop, Outcome,
    Promise, Request, Resolution, Step, TaskSet, Timer, WaitScope, WaitStep,
};

/// Runs the loop until `p` resolves. `call` plays the program's functions;
/// `idle` plays the reactor and returns false when it has nothing to report.
fn drive<V>(
    lp: &mut EventLoop<V>,
    scope: &WaitScope,
    p: &Promise,
    call: &mut dyn FnMut(&mut EventLoop<V>, u64, Outcome<V>) -> Continuation<V>,
    idle: &mut dyn FnMut(&mut EventLoop<V>) -> bool,
) -> (Option<Outcome<V>>, usize) {
    let mut turns = 0;
    loop {
        match p.wait_step(lp, scope) {
            WaitStep::Resolved(o) => return (Some(o), turns),
            WaitStep::Turned(Step::Idle) => {
                if !idle(lp) {
                    return (None, turns);
                }
            }
            WaitStep::Turned(Step::Ran) => turns += 1,
            WaitStep::Turned(Step::Call { node, tag, arg }) => {
                turns += 1;
                let c = call(lp, tag, arg);
                lp.complete(node, c);
            }
        }
    }
}

fn no_calls(_: &mut EventLoop<i64>, _: u64, _: Outcome<i64>) -> Continuation<i64> {
    panic!("no function was chained")
}

fn no_reactor(_: &mut EventLoop<i64>) -> bool {
    false
}

fn single(v: i64) -> Outcome<i64> {
    Ok(Resolution::Single(v))
}

#[test]
fn array_join_keeps_order() {
    let r = EventLoop::<i64>::top_level(|mut lp, scope| {
        let ps = vec![
            Promise::fulfilled(&mut lp, 3),
            Promise::fulfilled(&mut lp, 1),
            Promise::fulfilled(&mut lp, 4),
        ];
        let joined = join_promises(&mut lp, ps);
        let (r, _) = drive(&mut lp, &scope, &joined, &mut no_calls, &mut no_reactor);
        assert_eq!(
            r,
            Some(Ok(Resolution::Joined(vec![
                Resolution::Single(3),
                Resolution::Single(1),
                Resolution::Single(4),
            ])))
        );
        Ok(())
    });
    assert_eq!(r, Ok(()));
}

#[test]
fn array_join_fails_with_a_failed_part() {
    EventLoop::<i64>::top_level(|mut lp, scope| {
        let (pending, _f) = new_promise_and_fulfiller(&mut lp);
        let ps = vec![Promise::fulfilled(&mut lp, 3), pending, Promise::rejected(&mut lp, Error::TimedOut)];
        let joined = join_promises(&mut lp, ps);
        let (r, _) = drive(&mut lp, &scope, &joined, &mut no_calls, &mut no_reactor);
        assert_eq!(r, Some(Err(Error::TimedOut)));
        Ok(())
    })
    .unwrap();
}

#[test]
fn chain_flattening() {
    EventLoop::<i64>::top_level(|mut lp, scope| {
        let p = Promise::fulfilled(&mut lp, 0).then(&mut lp, 1);
        let mut call = |lp: &mut EventLoop<i64>, tag: u64, arg: Outcome<i64>| {
            assert_eq!(tag, 1);
            assert_eq!(arg, single(0));
            Continuation::Chained(Promise::fulfilled(lp, 7))
        };
        let (r, _) = drive(&mut lp, &scope, &p, &mut call, &mut no_reactor);
        assert_eq!(r, Some(single(7)));
        Ok(())
    })
    .unwrap();
}

#[test]
fn chain_runs_in_declaration_order_within_n_turns() {
    EventLoop::<i64>::top_level(|mut lp, scope| {
        let p0 = Promise::fulfilled(&mut lp, 10);
        let p = p0.map(&mut lp, 1).map(&mut lp, 2).map(&mut lp, 3);
        let mut seen = Vec::new();
        let mut call = |_: &mut EventLoop<i64>, tag: u64, arg: Outcome<i64>| {
            seen.push(tag);
            match arg {
                Ok(Resolution::Single(v)) => Continuation::Value(single(v + tag as i64)),
                other => Continuation::Value(other),
            }
        };
        let (r, turns) = drive(&mut lp, &scope, &p, &mut call, &mut no_reactor);
        assert_eq!(r, Some(single(16)));
        assert_eq!(seen, vec![1, 2, 3]);
        assert!(turns <= 3);
        Ok(())
    })
    .unwrap();
}

#[test]
fn map_passes_failures_on_unchanged() {
    EventLoop::<i64>::top_level(|mut lp, scope| {
        let p = Promise::rejected(&mut lp, Error::Io(5)).map(&mut lp, 1);
        let (r, _) = drive(&mut lp, &scope, &p, &mut no_calls, &mut no_reactor);
        assert_eq!(r, Some(Err(Error::Io(5))));
        Ok(())
    })
    .unwrap();
}

#[test]
fn then_else_recovers_from_failure() {
    EventLoop::<i64>::top_level(|mut lp, scope| {
        let p = Promise::rejected(&mut lp, Error::AddressResolution).then_else(&mut lp, 1, 2);
        let mut call = |lp: &mut EventLoop<i64>, tag: u64, arg: Outcome<i64>| {
            assert_eq!(tag, 2);
            assert_eq!(arg, Err(Error::AddressResolution));
            Continuation::Chained(Promise::fulfilled(lp, 5))
        };
        let (r, _) = drive(&mut lp, &scope, &p, &mut call, &mut no_reactor);
        assert_eq!(r, Some(single(5)));
        Ok(())
    })
    .unwrap();
}

#[test]
fn map_else_recovers_with_a_value() {
    EventLoop::<i64>::top_level(|mut lp, scope| {
        let p = Promise::rejected(&mut lp, Error::TimedOut).map_else(&mut lp, 1, 2);
        let mut call = |_: &mut EventLoop<i64>, tag: u64, _: Outcome<i64>| {
            assert_eq!(tag, 2);
            Continuation::Value(single(-1))
        };
        let (r, _) = drive(&mut lp, &scope, &p, &mut call, &mut no_reactor);
        assert_eq!(r, Some(single(-1)));
        Ok(())
    })
    .unwrap();
}

#[test]
fn exclusive_join_with_timer() {
    EventLoop::<i64>::top_level(|mut lp, scope| {
        let timer = Timer;
        let slow = timer.after_delay_ms(&mut lp, 50);
        let slow_id = slow.id;
        let slow = slow.map(&mut lp, 1);
        let fast = timer.after_delay_ms(&mut lp, 10);
        let fast_id = fast.id;
        let fast = fast.map(&mut lp, 2);
        let p = slow.exclusive_join(&mut lp, fast);
        assert_eq!(
            lp.take_requests(),
            vec![
                Request::StartTimer { node: slow_id, delay_ms: 50 },
                Request::StartTimer { node: fast_id, delay_ms: 10 },
            ]
        );
        let mut call = |_: &mut EventLoop<i64>, tag: u64, _: Outcome<i64>| {
            Continuation::Value(single(tag as i64))
        };
        let mut fired = false;
        let mut idle = |lp: &mut EventLoop<i64>| {
            if fired {
                return false;
            }
            fired = true;
            lp.timer_expired(fast_id);
            true
        };
        let (r, _) = drive(&mut lp, &scope, &p, &mut call, &mut idle);
        assert_eq!(r, Some(single(2)));
        assert_eq!(lp.take_requests(), vec![Request::ClearTimer { node: slow_id }]);
        Ok(())
    })
    .unwrap();
}

#[test]
fn exclusive_join_takes_first_to_fire_and_drops_the_other() {
    EventLoop::<i64>::top_level(|mut lp, scope| {
        let (a, fa) = new_promise_and_fulfiller(&mut lp);
        let (b, fb) = new_promise_and_fulfiller(&mut lp);
        let a = a.map(&mut lp, 1);
        let b = b.map(&mut lp, 2);
        let p = a.exclusive_join(&mut lp, b);
        fb.fulfill(&mut lp, 20);
        let mut calls = Vec::new();
        let mut call = |_: &mut EventLoop<i64>, tag: u64, arg: Outcome<i64>| {
            calls.push(tag);
            Continuation::Value(arg)
        };
        let (r, _) = drive(&mut lp, &scope, &p, &mut call, &mut no_reactor);
        assert_eq!(r, Some(single(20)));
        fa.fulfill(&mut lp, 10);
        let mut after = |lp: &mut EventLoop<i64>| {
            let _ = lp;
            false
        };
        let (_, _) = drive(&mut lp, &scope, &Promise { id: 0 }, &mut call, &mut after);
        assert_eq!(calls, vec![2]);
        Ok(())
    })
    .unwrap();
}

#[test]
fn dropped_fulfiller_breaks_the_promise() {
    EventLoop::<i64>::top_level(|mut lp, scope| {
        let (p, f) = new_promise_and_fulfiller(&mut lp);
        f.abandon(&mut lp);
        let (r, _) = drive(&mut lp, &scope, &p, &mut no_calls, &mut no_reactor);
        assert_eq!(r, Some(Err(Error::BrokenPromise)));
        Ok(())
    })
    .unwrap();
}

#[test]
fn fulfiller_rejects() {
    EventLoop::<i64>::top_level(|mut lp, scope| {
        let (p, f) = new_promise_and_fulfiller(&mut lp);
        f.reject(&mut lp, Error::Io(32));
        let (r, _) = drive(&mut lp, &scope, &p, &mut no_calls, &mut no_reactor);
        assert_eq!(r, Some(Err(Error::Io(32))));
        Ok(())
    })
    .unwrap();
}

#[test]
fn dropping_a_resolved_promise_changes_nothing() {
    EventLoop::<i64>::top_level(|mut lp, _scope| {
        let t = Timer.after_delay_ms(&mut lp, 5);
        let id = t.id;
        let _ = lp.take_requests();
        lp.timer_expired(id);
        assert!(lp.is_ready(id));
        t.cancel(&mut lp);
        assert!(lp.is_ready(id));
        assert_eq!(lp.take_requests(), vec![]);
        Ok(())
    })
    .unwrap();
}

#[test]
fn dropping_a_pending_timer_clears_it_once() {
    EventLoop::<i64>::top_level(|mut lp, _scope| {
        let t = Timer.after_delay_ms(&mut lp, 5);
        let id = t.id;
        let m = t.map(&mut lp, 1);
        let _ = lp.take_requests();
        m.cancel(&mut lp);
        assert_eq!(lp.take_requests(), vec![Request::ClearTimer { node: id }]);
        lp.cancel(id);
        assert_eq!(lp.take_requests(), vec![]);
        Ok(())
    })
    .unwrap();
}

#[test]
fn timeout_clears_the_timer_when_the_promise_wins() {
    EventLoop::<i64>::top_level(|mut lp, scope| {
        let (p, f) = new_promise_and_fulfiller(&mut lp);
        let guarded = Timer.timeout_after_ms(&mut lp, 100, p);
        let timer_id = match lp.take_requests().as_slice() {
            [Request::StartTimer { node, delay_ms: 100 }] => *node,
            other => panic!("unexpected requests {:?}", other),
        };
        f.fulfill(&mut lp, 9);
        let (r, _) = drive(&mut lp, &scope, &guarded, &mut no_calls, &mut no_reactor);
        assert_eq!(r, Some(single(9)));
        assert_eq!(lp.take_requests(), vec![Request::ClearTimer { node: timer_id }]);
        Ok(())
    })
    .unwrap();
}

#[test]
fn timeout_fails_when_the_timer_wins() {
    EventLoop::<i64>::top_level(|mut lp, scope| {
        let (p, _f) = new_promise_and_fulfiller(&mut lp);
        let guarded = Timer.timeout_after_ms(&mut lp, 100, p);
        let timer_id = match lp.take_requests().as_slice() {
            [Request::StartTimer { node, .. }] => *node,
            other => panic!("unexpected requests {:?}", other),
        };
        let mut idle = |lp: &mut EventLoop<i64>| {
            lp.timer_expired(timer_id);
            true
        };
        let (r, _) = drive(&mut lp, &scope, &guarded, &mut no_calls, &mut idle);
        assert_eq!(r, Some(Err(Error::TimedOut)));
        Ok(())
    })
    .unwrap();
}

struct Collect(Vec<Error>);

impl ErrorHandler for Collect {
    fn task_failed(&mut self, error: Error) {
        self.0.push(error);
    }
}

#[test]
fn task_set_reports_failures() {
    EventLoop::<i64>::top_level(|mut lp, _scope| {
        let mut tasks = TaskSet::new(Collect(Vec::new()));
        let (pending, f) = new_promise_and_fulfiller(&mut lp);
        tasks.add(Promise::rejected(&mut lp, Error::PrematureEof));
        tasks.add(pending);
        tasks.add(Promise::fulfilled(&mut lp, 1));
        assert_eq!(tasks.reap(&mut lp), vec![Error::PrematureEof]);
        f.reject(&mut lp, Error::TimedOut);
        assert_eq!(tasks.reap(&mut lp), vec![Error::TimedOut]);
        assert_eq!(tasks.error_handler().0, vec![Error::PrematureEof, Error::TimedOut]);
        Ok(())
    })
    .unwrap();
}

#[test]
fn idle_loop_reports_idle() {
    let mut lp = EventLoop::<i64>::new();
    assert!(matches!(lp.turn(), Step::Idle));
}

#[test]
fn array_join_keeps_one_element_per_part() {
    EventLoop::<i64>::top_level(|mut lp, scope| {
        let t = Timer.after_delay_ms(&mut lp, 1);
        let tid = t.id;
        let five = Promise::fulfilled(&mut lp, 5);
        let inner = join_promises(&mut lp, vec![five]);
        let ps = vec![t, inner, Promise::fulfilled(&mut lp, 6)];
        let joined = join_promises(&mut lp, ps);
        let mut idle = |lp: &mut EventLoop<i64>| {
            if lp.is_ready(tid) {
                return false;
            }
            lp.timer_expired(tid);
            true
        };
        let (r, _) = drive(&mut lp, &scope, &joined, &mut no_calls, &mut idle);
        assert_eq!(
            r,
            Some(Ok(Resolution::Joined(vec![
                Resolution::Unit,
                Resolution::Joined(vec![Resolution::Single(5)]),
                Resolution::Single(6),
            ])))
        );
        Ok(())
    })
    .unwrap();
}

#[test]
fn array_join_failure_cancels_the_other_parts() {
    EventLoop::<i64>::top_level(|mut lp, scope| {
        let t = Timer.after_delay_ms(&mut lp, 100);
        let tid = t.id;
        let _ = lp.take_requests();
        let failed = Promise::rejected(&mut lp, Error::Io(4));
        let joined = join_promises(&mut lp, vec![t, failed]);
        let (r, _) = drive(&mut lp, &scope, &joined, &mut no_calls, &mut no_reactor);
        assert_eq!(r, Some(Err(Error::Io(4))));
        assert_eq!(lp.take_requests(), vec![Request::ClearTimer { node: tid }]);
        Ok(())
    })
    .unwrap();
}

#[test]
fn exclusive_join_takes_the_side_that_fired_first() {
    EventLoop::<i64>::top_level(|mut lp, scope| {
        let (a, fa) = new_promise_and_fulfiller(&mut lp);
        let (b, fb) = new_promise_and_fulfiller(&mut lp);
        let p = a.exclusive_join(&mut lp, b);
        fb.fulfill(&mut lp, 2);
        fa.fulfill(&mut lp, 1);
        let (r, _) = drive(&mut lp, &scope, &p, &mut no_calls, &mut no_reactor);
        assert_eq!(r, Some(single(2)));
        Ok(())
    })
    .unwrap();
}

#[test]
fn cancelling_a_task_set_cancels_its_tasks() {
    EventLoop::<i64>::top_level(|mut lp, _scope| {
        let mut tasks = TaskSet::new(Collect(Vec::new()));
        let t = Timer.after_delay_ms(&mut lp, 7);
        let tid = t.id;
        let _ = lp.take_requests();
        tasks.add(t.map(&mut lp, 1));
        tasks.cancel(&mut lp);
        assert_eq!(lp.take_requests(), vec![Request::ClearTimer { node: tid }]);
        Ok(())
    })
    .unwrap();
}

#[test]
fn array_join_fails_with_the_first_failure_to_fire() {
    EventLoop::<i64>::top_level(|mut lp, scope| {
        let (a, fa) = new_promise_and_fulfiller(&mut lp);
        let (b, fb) = new_promise_and_fulfiller(&mut lp);
        let joined = join_promises(&mut lp, vec![a, b]);
        fb.reject(&mut lp, Error::Io(2));
        fa.reject(&mut lp, Error::Io(1));
        let (r, _) = drive(&mut lp, &scope, &joined, &mut no_calls, &mut no_reactor);
        assert_eq!(r, Some(Err(Error::Io(2))));
        Ok(())
    })
    .unwrap();
}

#[test]
fn then_chain_takes_one_turn_per_link() {
    EventLoop::<i64>::top_level(|mut lp, scope| {
        let p = Promise::fulfilled(&mut lp, 1).then(&mut lp, 1).then(&mut lp, 2).then(&mut lp, 3);
        let mut seen = Vec::new();
        let mut call = |lp: &mut EventLoop<i64>, tag: u64, arg: Outcome<i64>| {
            seen.push(tag);
            let v = match arg {
                Ok(Resolution::Single(v)) => v,
                _ => panic!("a chain link failed"),
            };
            Continuation::Chained(Promise::fulfilled(lp, v * 10))
        };
        let (r, turns) = drive(&mut lp, &scope, &p, &mut call, &mut no_reactor);
        assert_eq!(r, Some(single(1000)));
        assert_eq!(seen, vec![1, 2, 3]);
        assert_eq!(turns, 3);
        Ok(())
    })
    .unwrap();
}
