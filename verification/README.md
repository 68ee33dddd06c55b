# set_timeout

Runs futures after a delay, like `setTimeout` in js, with a single scheduler task for any number
of pending timeouts. A scheduled timeout can be cancelled with the token returned when it was
scheduled, as long as it has not run yet.

Layout:

- `src/` is the verified core. `scheduled_timeout.rs` holds the identifier of a timeout (its point
  in time, in nanoseconds from the scheduler's origin, and the address of its future) and the
  order of identifiers. `scheduler_task.rs` holds the scheduler's state machine: the pending
  timeouts, kept strictly ascending, and `SchedulerTask::step`, which takes what happened (a
  request, an elapsed delay, a finished timeout, a closed channel) and returns what to do next
  (run a timeout, wait for a request, with or without a deadline, or stop). Its contract is the
  abstract `step_spec` over a map of pending timeouts. A request that changes nothing (such as
  cancelling a timeout that already ran) lets the scheduler keep waiting for the same point in
  time. `laws.rs` proves properties of every step and of runs of many steps: timeouts run in
  order, never more than the minimum delay early, a cancelled timeout never runs, and every
  pending timeout that is not cancelled runs exactly once once requests stop.
- `app/` is the tokio runtime around it: the public `TimeoutScheduler`, the request channel, the
  clock, and the task that awaits the futures the state machine hands out.
- `tests/` exercises the library on concrete values.
