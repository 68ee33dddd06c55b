use set_timeout::scheduler_task::{
    CancellationToken, SchedulerAction, SchedulerEvent, SchedulerTask, SchedulerTaskRequest,
};

/// A plain description of an action, so that tests can compare actions.
fn describe(action: SchedulerAction<&'static str>) -> String {
    match action {
        SchedulerAction::RunTimeout(name) => format!("run {}", name),
        SchedulerAction::WaitForRequest => "wait".to_string(),
        SchedulerAction::WaitForRequestOrDelay(delay) => format!("wait {}", delay),
        SchedulerAction::Stop => "stop".to_string(),
    }
}

fn schedule(
    task: &mut SchedulerTask<&'static str>,
    now: u128,
    delay: u128,
    addr: usize,
    name: &'static str,
) -> (String, CancellationToken) {
    let (request, token) = SchedulerTaskRequest::schedule_timeout(now, delay, addr, name).unwrap();
    let action = task.step(SchedulerEvent::RequestReceived(request), now);
    (describe(action), token)
}

fn cancel(task: &mut SchedulerTask<&'static str>, now: u128, token: CancellationToken) -> String {
    describe(task.step(
        SchedulerEvent::RequestReceived(SchedulerTaskRequest::CancelTimeout(token)),
        now,
    ))
}

#[test]
fn new_scheduler_waits_for_requests() {
    let task = SchedulerTask::<&'static str>::new(0);
    assert_eq!(describe(task.wait_action()), "wait");
}

#[test]
fn scheduled_timeout_sets_the_delay() {
    let mut task = SchedulerTask::new(0);
    let (action, _) = schedule(&mut task, 10, 90, 1, "a");
    assert_eq!(action, "wait 90");
    assert_eq!(describe(task.wait_action()), "wait 90");
}

#[test]
fn delay_is_measured_from_the_step() {
    let mut task = SchedulerTask::new(0);
    // scheduled at 10 to run at 100, but the scheduler handles it at 30.
    let (request, _) = SchedulerTaskRequest::schedule_timeout(10, 90, 1, "a").unwrap();
    let action = task.step(SchedulerEvent::RequestReceived(request), 30);
    assert_eq!(describe(action), "wait 70");
}

#[test]
fn schedule_overflow_is_refused() {
    assert!(SchedulerTaskRequest::schedule_timeout(u128::MAX, 1, 1, "a").is_none());
    assert!(SchedulerTaskRequest::schedule_timeout(u128::MAX - 1, 1, 1, "a").is_some());
}

#[test]
fn earlier_timeout_replaces_the_delay() {
    let mut task = SchedulerTask::new(0);
    assert_eq!(schedule(&mut task, 0, 500, 1, "late").0, "wait 500");
    assert_eq!(schedule(&mut task, 0, 200, 2, "early").0, "wait 200");
    // a later timeout keeps the delay of the earliest one.
    assert_eq!(schedule(&mut task, 0, 300, 3, "middle").0, "wait 200");
}

#[test]
fn timeouts_run_in_order_of_time() {
    let mut task = SchedulerTask::new(0);
    schedule(&mut task, 0, 300, 1, "third");
    schedule(&mut task, 0, 100, 2, "first");
    schedule(&mut task, 0, 200, 3, "second");
    assert_eq!(describe(task.step(SchedulerEvent::DelayElapsed, 100)), "run first");
    assert_eq!(describe(task.step(SchedulerEvent::TimeoutFinished, 101)), "wait 99");
    assert_eq!(describe(task.step(SchedulerEvent::DelayElapsed, 200)), "run second");
    assert_eq!(describe(task.step(SchedulerEvent::TimeoutFinished, 200)), "wait 100");
    assert_eq!(describe(task.step(SchedulerEvent::DelayElapsed, 300)), "run third");
    assert_eq!(describe(task.step(SchedulerEvent::TimeoutFinished, 300)), "wait");
}

#[test]
fn same_time_timeouts_run_in_order_of_address() {
    let mut task = SchedulerTask::new(0);
    schedule(&mut task, 0, 100, 9, "high address");
    schedule(&mut task, 0, 100, 4, "low address");
    assert_eq!(describe(task.step(SchedulerEvent::DelayElapsed, 100)), "run low address");
    assert_eq!(describe(task.step(SchedulerEvent::TimeoutFinished, 100)), "wait 0");
    assert_eq!(describe(task.step(SchedulerEvent::DelayElapsed, 100)), "run high address");
}

#[test]
fn overdue_timeouts_run_one_after_another() {
    let mut task = SchedulerTask::new(0);
    schedule(&mut task, 0, 10, 1, "a");
    schedule(&mut task, 0, 20, 2, "b");
    schedule(&mut task, 0, 1000, 3, "c");
    // a request arrives late: both a and b are overdue.
    let (request, _) = SchedulerTaskRequest::schedule_timeout(0, 5000, 4, "d").unwrap();
    assert_eq!(describe(task.step(SchedulerEvent::RequestReceived(request), 50)), "run a");
    assert_eq!(describe(task.step(SchedulerEvent::TimeoutFinished, 60)), "run b");
    assert_eq!(describe(task.step(SchedulerEvent::TimeoutFinished, 70)), "wait 930");
}

#[test]
fn timeout_due_within_min_delay_runs_at_once() {
    let mut task = SchedulerTask::new(30);
    // a delay of 20 is smaller than the minimum delay of 30.
    assert_eq!(schedule(&mut task, 0, 20, 1, "quick").0, "run quick");
    assert_eq!(describe(task.step(SchedulerEvent::TimeoutFinished, 1)), "wait");
}

#[test]
fn timeout_at_min_delay_is_waited_for() {
    let mut task = SchedulerTask::new(30);
    assert_eq!(schedule(&mut task, 0, 30, 1, "exact").0, "wait 30");
    assert_eq!(schedule(&mut task, 0, 29, 2, "early").0, "run early");
}

#[test]
fn cancelled_timeout_never_runs() {
    let mut task = SchedulerTask::new(0);
    let (_, token_a) = schedule(&mut task, 0, 100, 1, "a");
    schedule(&mut task, 0, 200, 2, "b");
    assert_eq!(cancel(&mut task, 10, token_a), "wait 190");
    assert_eq!(describe(task.step(SchedulerEvent::DelayElapsed, 200)), "run b");
    assert_eq!(describe(task.step(SchedulerEvent::TimeoutFinished, 200)), "wait");
}

#[test]
fn cancelling_the_only_timeout_stops_waiting() {
    let mut task = SchedulerTask::new(0);
    let (_, token) = schedule(&mut task, 0, 100, 1, "a");
    assert_eq!(cancel(&mut task, 50, token), "wait");
}

#[test]
fn cancelling_twice_does_nothing() {
    let mut task = SchedulerTask::new(0);
    let (_, token) = schedule(&mut task, 0, 100, 1, "a");
    schedule(&mut task, 0, 300, 2, "b");
    assert_eq!(cancel(&mut task, 50, token.clone()), "wait 250");
    // the second cancellation changes nothing: the scheduler waits only the time left until b.
    assert_eq!(cancel(&mut task, 80, token), "wait 220");
}

#[test]
fn cancelling_after_the_run_does_nothing() {
    let mut task = SchedulerTask::new(0);
    let (_, token) = schedule(&mut task, 0, 100, 1, "a");
    schedule(&mut task, 0, 300, 2, "b");
    assert_eq!(describe(task.step(SchedulerEvent::DelayElapsed, 100)), "run a");
    assert_eq!(describe(task.step(SchedulerEvent::TimeoutFinished, 100)), "wait 200");
    assert_eq!(cancel(&mut task, 150, token), "wait 150");
    assert_eq!(describe(task.step(SchedulerEvent::DelayElapsed, 300)), "run b");
}

#[test]
fn schedule_then_cancel_leaves_nothing_pending() {
    let mut task = SchedulerTask::new(0);
    let (_, token) = schedule(&mut task, 0, 100, 1, "a");
    assert_eq!(cancel(&mut task, 0, token), "wait");
    assert_eq!(describe(task.step(SchedulerEvent::TimeoutFinished, 500)), "wait");
}

#[test]
fn same_identifier_replaces_the_future() {
    let mut task = SchedulerTask::new(0);
    schedule(&mut task, 0, 100, 1, "old");
    schedule(&mut task, 0, 100, 1, "new");
    assert_eq!(describe(task.step(SchedulerEvent::DelayElapsed, 100)), "run new");
    assert_eq!(describe(task.step(SchedulerEvent::TimeoutFinished, 100)), "wait");
}

#[test]
fn closed_channel_stops_the_scheduler() {
    let mut task = SchedulerTask::new(0);
    schedule(&mut task, 0, 100, 1, "a");
    assert_eq!(describe(task.step(SchedulerEvent::ChannelClosed, 10)), "stop");
    // the state is unchanged: the scheduler would still wait for the pending timeout.
    assert_eq!(describe(task.wait_action()), "wait 100");
}

#[test]
fn finished_timeout_with_nothing_pending_waits_for_requests() {
    let mut task = SchedulerTask::<&'static str>::new(0);
    assert_eq!(describe(task.step(SchedulerEvent::TimeoutFinished, 10)), "wait");
}

#[test]
fn stale_cancel_keeps_the_time_of_the_next_timeout() {
    let mut task = SchedulerTask::new(0);
    let (_, stale) = schedule(&mut task, 0, 10, 1, "done");
    assert_eq!(describe(task.step(SchedulerEvent::DelayElapsed, 10)), "run done");
    assert_eq!(schedule(&mut task, 10, 90, 2, "g").0, "wait 90");
    // at 50 the stale token is cancelled again: g still starts at 100.
    assert_eq!(cancel(&mut task, 50, stale), "wait 50");
    assert_eq!(describe(task.step(SchedulerEvent::DelayElapsed, 100)), "run g");
}

#[test]
fn stale_cancel_runs_a_due_timeout() {
    let mut task = SchedulerTask::new(0);
    let (_, stale) = schedule(&mut task, 0, 10, 1, "done");
    cancel(&mut task, 0, stale.clone());
    schedule(&mut task, 0, 100, 2, "g");
    // the request is handled after g's point in time: g runs at once.
    assert_eq!(cancel(&mut task, 120, stale), "run g");
}

#[test]
fn pending_timeouts_all_run_once_without_requests() {
    let mut task = SchedulerTask::new(0);
    schedule(&mut task, 0, 30, 1, "c");
    schedule(&mut task, 0, 10, 2, "a");
    let (_, last) = schedule(&mut task, 0, 20, 3, "b");
    let mut action = task.wait_action();
    let mut ran = Vec::new();
    let mut now = 0;
    for _ in 0..6 {
        let event = match action {
            SchedulerAction::RunTimeout(name) => {
                ran.push(name);
                SchedulerEvent::TimeoutFinished
            }
            SchedulerAction::WaitForRequestOrDelay(delay) => {
                now += delay;
                SchedulerEvent::DelayElapsed
            }
            _ => break,
        };
        action = task.step(event, now);
    }
    assert_eq!(ran, vec!["a", "b", "c"]);
    assert_eq!(describe(action), "wait");
    // everything ran: cancelling now changes nothing.
    assert_eq!(cancel(&mut task, now, last), "wait");
}

#[test]
fn idle_cancel_within_min_delay_does_not_run_early() {
    let mut task = SchedulerTask::new(30);
    let (_, stale) = schedule(&mut task, 0, 10, 1, "done");
    assert_eq!(describe(task.step(SchedulerEvent::TimeoutFinished, 0)), "wait");
    // set at 50 to run at 100: 50 is not below the minimum of 30, so the scheduler waits.
    assert_eq!(schedule(&mut task, 50, 50, 2, "g").0, "wait 50");
    // at 90, within the minimum delay of g's point in time, the stale token is cancelled again:
    // the scheduler keeps waiting until 100.
    assert_eq!(cancel(&mut task, 90, stale.clone()), "wait 10");
    // and cancelling it once more at 95 still changes nothing.
    assert_eq!(cancel(&mut task, 95, stale), "wait 5");
    assert_eq!(describe(task.step(SchedulerEvent::DelayElapsed, 100)), "run g");
}
