//! Properties that hold of every step of the scheduler task, and of runs of many steps.
use crate::scheduled_timeout::ScheduledTimeoutIdentifier;
use crate::scheduler_task::{
    apply_request, earliest, is_earliest, keep_waiting, lemma_earliest_exists, model_inv,
    request_changes_pending, settle_within, step_spec, waiting_action, CancellationToken, SchedulerAction,
    SchedulerEvent, SchedulerModel, SchedulerTaskRequest,
};
use vstd::prelude::*;

verus! {

/// The order of identifiers is a strict total order: no identifier comes before itself, of two
/// identifiers at most one comes before the other, it is transitive, and of two different
/// identifiers one comes before the other.
pub proof fn law_identifier_order_is_strict_total(
    a: ScheduledTimeoutIdentifier,
    b: ScheduledTimeoutIdentifier,
    c: ScheduledTimeoutIdentifier,
)
    ensures
        !a.before(a),
        a.before(b) ==> !b.before(a),
        a.before(b) && b.before(c) ==> a.before(c),
        a != b ==> a.before(b) || b.before(a),
{
}

/// The pending timeouts that a step works on: those after the received request, if it changes
/// them, was applied.
pub open spec fn pending_of_step<F>(s: SchedulerModel<F>, event: SchedulerEvent<F>) -> Map<
    ScheduledTimeoutIdentifier,
    F,
> {
    match event {
        SchedulerEvent::RequestReceived(request) => if request_changes_pending(s.pending, request) {
            apply_request(s.pending, request)
        } else {
            s.pending
        },
        _ => s.pending,
    }
}

/// How long before its point in time a step may hand out a timeout: the minimum delay, except
/// after a request that changed nothing, where only a timeout whose point in time has passed
/// runs.
pub open spec fn early_by_of_step<F>(s: SchedulerModel<F>, event: SchedulerEvent<F>) -> u128 {
    match event {
        SchedulerEvent::RequestReceived(request) => if request_changes_pending(s.pending, request) {
            s.min_timeout_delay
        } else {
            0
        },
        _ => s.min_timeout_delay,
    }
}

/// What one round of updating the current delay gives, on finitely many pending timeouts.
proof fn lemma_settle_within<F>(
    p: Map<ScheduledTimeoutIdentifier, F>,
    min_timeout_delay: u128,
    early_by: u128,
    now: u128,
)
    requires
        p.dom().finite(),
    ensures
        ({
            let (after, action) = settle_within(p, min_timeout_delay, early_by, now);
            let first = earliest(p);
            &&& after.min_timeout_delay == min_timeout_delay
            &&& after.pending.dom().finite()
            &&& !(action is Stop)
            &&& action is WaitForRequest <==> p.dom().is_empty()
            &&& action is WaitForRequest ==> after.pending == p && after.cur_delay is None
            &&& !p.dom().is_empty() ==> is_earliest(p, first)
            &&& action is RunTimeout ==> {
                &&& action == SchedulerAction::RunTimeout(p[first])
                &&& after.pending == p.remove(first)
                &&& after.cur_delay is None
                &&& first.run_at < now + early_by
            }
            &&& action matches SchedulerAction::WaitForRequestOrDelay(delay) ==> {
                &&& after.pending == p
                &&& after.cur_delay == Some(delay)
                &&& delay == first.run_at - now
                &&& delay >= early_by
                &&& forall|id: ScheduledTimeoutIdentifier| #[trigger]
                    p.contains_key(id) ==> id.run_at >= now + early_by
            }
        }),
{
    if !p.dom().is_empty() {
        lemma_earliest_exists(p);
        let first = earliest(p);
        assert(p.remove(first).dom().finite());
        assert forall|id: ScheduledTimeoutIdentifier| #[trigger]
            p.contains_key(id) && id != first implies first.run_at <= id.run_at by {
            assert(first.before(id));
        }
    }
}

/// A step that is not an elapsed delay or a closed channel is one round of updating the current
/// delay on the pending timeouts of the step.
proof fn lemma_step_settles<F>(s: SchedulerModel<F>, event: SchedulerEvent<F>, now: u128)
    requires
        model_inv(s),
        !(event is DelayElapsed),
        !(event is ChannelClosed),
    ensures
        step_spec(s, event, now) == settle_within(
            pending_of_step(s, event),
            s.min_timeout_delay,
            early_by_of_step(s, event),
            now,
        ),
        pending_of_step(s, event).dom().finite(),
{
    if let SchedulerEvent::RequestReceived(request) = event {
        if request_changes_pending(s.pending, request) {
            assert(apply_request(s.pending, request).dom().finite());
        }
    }
}

/// Every step keeps the invariant: finitely many timeouts are pending, and the scheduler only
/// waits for a delay while some timeout is pending.
pub proof fn law_step_keeps_invariant<F>(
    s: SchedulerModel<F>,
    event: SchedulerEvent<F>,
    now: u128,
)
    requires
        model_inv(s),
        event is DelayElapsed ==> s.cur_delay is Some,
    ensures
        model_inv(step_spec(s, event, now).0),
{
    match event {
        SchedulerEvent::DelayElapsed => {
            assert(s.pending.remove(earliest(s.pending)).dom().finite());
        },
        SchedulerEvent::ChannelClosed => {},
        _ => {
            lemma_step_settles(s, event, now);
            lemma_settle_within(
                pending_of_step(s, event),
                s.min_timeout_delay,
                early_by_of_step(s, event),
                now,
            );
        },
    }
}

/// The minimum delay is fixed for the life of the scheduler: no step changes it.
pub proof fn law_step_keeps_min_delay<F>(s: SchedulerModel<F>, event: SchedulerEvent<F>, now: u128)
    requires
        model_inv(s),
    ensures
        step_spec(s, event, now).0.min_timeout_delay == s.min_timeout_delay,
{
    match event {
        SchedulerEvent::DelayElapsed => {},
        SchedulerEvent::ChannelClosed => {},
        _ => {
            lemma_step_settles(s, event, now);
            lemma_settle_within(
                pending_of_step(s, event),
                s.min_timeout_delay,
                early_by_of_step(s, event),
                now,
            );
        },
    }
}

/// What the scheduler waits for while it runs no timeout follows the current delay: it waits
/// for a request with a deadline of exactly the current delay when one is set, and with no
/// deadline when none is set; it neither runs a timeout nor stops.
pub proof fn law_waiting_follows_cur_delay<F>(cur_delay: Option<u128>)
    ensures
        forall|delay: u128|
            waiting_action::<F>(cur_delay) == SchedulerAction::<F>::WaitForRequestOrDelay(delay)
                <==> cur_delay == Some(delay),
        waiting_action::<F>(cur_delay) is WaitForRequest <==> cur_delay is None,
        !(waiting_action::<F>(cur_delay) is RunTimeout),
        !(waiting_action::<F>(cur_delay) is Stop),
{
}

/// Timeouts run in the order of their identifiers: a timeout handed out to run is the earliest
/// of the pending timeouts, and it is no longer pending afterwards, so it runs at most once.
pub proof fn law_runs_earliest_pending<F>(s: SchedulerModel<F>, event: SchedulerEvent<F>, now: u128)
    requires
        model_inv(s),
        event is DelayElapsed ==> s.cur_delay is Some,
    ensures
        step_spec(s, event, now).1 is RunTimeout ==> {
            let p = pending_of_step(s, event);
            let first = earliest(p);
            &&& is_earliest(p, first)
            &&& step_spec(s, event, now).1 == SchedulerAction::RunTimeout(p[first])
            &&& step_spec(s, event, now).0.pending == p.remove(first)
            &&& !step_spec(s, event, now).0.pending.contains_key(first)
        },
{
    match event {
        SchedulerEvent::DelayElapsed => {
            lemma_earliest_exists(s.pending);
        },
        SchedulerEvent::ChannelClosed => {},
        _ => {
            lemma_step_settles(s, event, now);
            lemma_settle_within(
                pending_of_step(s, event),
                s.min_timeout_delay,
                early_by_of_step(s, event),
                now,
            );
        },
    }
}

/// A timeout never runs earlier than `min_timeout_delay` before its point in time: when a received
/// request or a finished timeout leads to running a timeout, that timeout is due before
/// `now + min_timeout_delay`. After a request that changed nothing, only a timeout whose point in
/// time has already passed runs. With a zero minimum delay, a timeout only runs once its point in
/// time has passed.
pub proof fn law_runs_only_due_timeouts<F>(
    s: SchedulerModel<F>,
    event: SchedulerEvent<F>,
    now: u128,
)
    requires
        model_inv(s),
        event is RequestReceived || event is TimeoutFinished,
    ensures
        step_spec(s, event, now).1 is RunTimeout ==> earliest(pending_of_step(s, event)).run_at
            < now + early_by_of_step(s, event),
        early_by_of_step(s, event) <= s.min_timeout_delay,
{
    lemma_step_settles(s, event, now);
    lemma_settle_within(
        pending_of_step(s, event),
        s.min_timeout_delay,
        early_by_of_step(s, event),
        now,
    );
}

/// Any timeout which requires waiting for a delay smaller than the minimum delay is executed
/// immediately: after a request that changes the pending timeouts, or after a finished timeout,
/// if the earliest pending timeout is due before `now + min_timeout_delay` it is handed out at
/// once; otherwise the scheduler waits at least the minimum delay.
pub proof fn law_due_within_min_delay_runs_at_once<F>(
    s: SchedulerModel<F>,
    event: SchedulerEvent<F>,
    now: u128,
)
    requires
        model_inv(s),
        event is TimeoutFinished || (event matches SchedulerEvent::RequestReceived(request)
            && request_changes_pending(s.pending, request)),
    ensures
        ({
            let p = pending_of_step(s, event);
            let first = earliest(p);
            let (after, action) = step_spec(s, event, now);
            &&& !p.dom().is_empty() && first.run_at < now + s.min_timeout_delay ==> action
                == SchedulerAction::RunTimeout(p[first])
            &&& action matches SchedulerAction::WaitForRequestOrDelay(delay) ==> delay
                >= s.min_timeout_delay && first.run_at == now + delay
        }),
{
    lemma_step_settles(s, event, now);
    lemma_settle_within(
        pending_of_step(s, event),
        s.min_timeout_delay,
        early_by_of_step(s, event),
        now,
    );
}

/// The scheduler never waits while a timeout is due: when a step leads the scheduler to wait for
/// a delay, the delay is exactly the time left until the earliest pending timeout and it is the
/// current delay; no pending timeout is due before `now` plus what the step may run early (the
/// minimum delay, or nothing after a request that changed nothing). When it waits with no
/// deadline, no timeout is pending and no delay is set.
pub proof fn law_waits_for_earliest<F>(s: SchedulerModel<F>, event: SchedulerEvent<F>, now: u128)
    requires
        model_inv(s),
    ensures
        step_spec(s, event, now).1 matches SchedulerAction::WaitForRequestOrDelay(delay) ==> {
            let after = step_spec(s, event, now).0;
            let first = earliest(after.pending);
            &&& is_earliest(after.pending, first)
            &&& delay == first.run_at - now
            &&& delay >= early_by_of_step(s, event)
            &&& after.cur_delay == Some(delay)
            &&& forall|id: ScheduledTimeoutIdentifier| #[trigger]
                after.pending.contains_key(id) ==> id.run_at >= now + early_by_of_step(s, event)
        },
        step_spec(s, event, now).1 is WaitForRequest ==> {
            &&& step_spec(s, event, now).0.pending.dom().is_empty()
            &&& step_spec(s, event, now).0.cur_delay is None
        },
{
    match event {
        SchedulerEvent::DelayElapsed => {},
        SchedulerEvent::ChannelClosed => {},
        _ => {
            lemma_step_settles(s, event, now);
            lemma_settle_within(
                pending_of_step(s, event),
                s.min_timeout_delay,
                early_by_of_step(s, event),
                now,
            );
        },
    }
}

/// Cancelling a timeout removes it from the pending timeouts, so it can no longer run.
/// Cancelling a timeout that already ran or was already cancelled changes nothing: the
/// scheduler keeps waiting for the point in time of the earliest timeout, and only hands that
/// timeout out if its point in time has already passed.
pub proof fn law_cancel_removes<F>(s: SchedulerModel<F>, token: CancellationToken, now: u128)
    requires
        model_inv(s),
    ensures
        ({
            let (after, action) = step_spec(
                s,
                SchedulerEvent::RequestReceived(SchedulerTaskRequest::CancelTimeout(token)),
                now,
            );
            &&& !after.pending.contains_key(token.identifier())
            &&& !s.pending.contains_key(token.identifier()) ==> {
                &&& (after, action) == keep_waiting(s, now)
                &&& action is RunTimeout ==> earliest(s.pending).run_at < now && after.pending
                    == s.pending.remove(earliest(s.pending))
                &&& !(action is RunTimeout) ==> after.pending == s.pending
            }
        }),
{
    let event = SchedulerEvent::RequestReceived(SchedulerTaskRequest::CancelTimeout(token));
    lemma_step_settles(s, event, now);
    lemma_settle_within(
        pending_of_step(s, event),
        s.min_timeout_delay,
        early_by_of_step(s, event),
        now,
    );
}

/// A cancellation that changes nothing does not move the point in time at which the next
/// timeout starts: if a step at `now` led the scheduler to wait `delay`, and a cancellation of a
/// timeout that is not pending arrives at `later`, no later than `now + delay`, the pending
/// timeouts stay as they are and the scheduler waits until the same point in time,
/// `now + delay`.
pub proof fn law_idle_cancel_keeps_the_point_in_time<F>(
    s: SchedulerModel<F>,
    event: SchedulerEvent<F>,
    now: u128,
    delay: u128,
    token: CancellationToken,
    later: u128,
)
    requires
        model_inv(s),
        event is DelayElapsed ==> s.cur_delay is Some,
        step_spec(s, event, now).1 == SchedulerAction::<F>::WaitForRequestOrDelay(delay),
        !step_spec(s, event, now).0.pending.contains_key(token.identifier()),
        later <= now + delay,
    ensures
        ({
            let waiting = step_spec(s, event, now).0;
            let (after, action) = step_spec(
                waiting,
                SchedulerEvent::RequestReceived(SchedulerTaskRequest::CancelTimeout(token)),
                later,
            );
            &&& after.pending == waiting.pending
            &&& action == SchedulerAction::<F>::WaitForRequestOrDelay((now + delay - later) as u128)
            &&& later + (now + delay - later) == now + delay
        }),
{
    law_waits_for_earliest(s, event, now);
    law_step_keeps_invariant(s, event, now);
    let waiting = step_spec(s, event, now).0;
    law_cancel_removes(waiting, token, later);
    lemma_settle_within(waiting.pending, waiting.min_timeout_delay, 0, later);
}

/// Cancelling twice with the same token leaves the same pending timeouts as cancelling once, when
/// the second cancellation arrives while the scheduler still waits after the first.
pub proof fn law_cancel_twice_is_cancel_once<F>(
    s: SchedulerModel<F>,
    token: CancellationToken,
    now: u128,
    delay: u128,
    later: u128,
)
    requires
        model_inv(s),
        step_spec(
            s,
            SchedulerEvent::RequestReceived(SchedulerTaskRequest::CancelTimeout(token)),
            now,
        ).1 == SchedulerAction::<F>::WaitForRequestOrDelay(delay),
        later <= now + delay,
    ensures
        ({
            let once = step_spec(
                s,
                SchedulerEvent::RequestReceived(SchedulerTaskRequest::CancelTimeout(token)),
                now,
            ).0;
            let twice = step_spec(
                once,
                SchedulerEvent::RequestReceived(SchedulerTaskRequest::CancelTimeout(token)),
                later,
            );
            &&& twice.0.pending == once.pending
            &&& twice.1 == SchedulerAction::<F>::WaitForRequestOrDelay((now + delay - later) as u128)
        }),
{
    let event = SchedulerEvent::RequestReceived(SchedulerTaskRequest::CancelTimeout(token));
    law_cancel_removes(s, token, now);
    law_idle_cancel_keeps_the_point_in_time(s, event, now, delay, token, later);
}

/// Cancelling with the token of a timeout that was just scheduled undoes the scheduling.
pub proof fn law_cancel_undoes_schedule<F>(
    pending: Map<ScheduledTimeoutIdentifier, F>,
    identifier: ScheduledTimeoutIdentifier,
    boxed_future: F,
    token: CancellationToken,
)
    requires
        !pending.contains_key(identifier),
        token.identifier() == identifier,
    ensures
        apply_request(
            apply_request(
                pending,
                SchedulerTaskRequest::ScheduleTimeout { identifier, boxed_future },
            ),
            SchedulerTaskRequest::CancelTimeout(token),
        ) == pending,
{
    assert(pending.insert(identifier, boxed_future).remove(identifier) =~= pending);
}

/// A scheduled timeout is either pending with its future afterwards, or, when it is the earliest
/// timeout and already due within `min_timeout_delay`, handed out to run at once.
pub proof fn law_schedule_makes_pending<F>(
    s: SchedulerModel<F>,
    identifier: ScheduledTimeoutIdentifier,
    boxed_future: F,
    now: u128,
)
    requires
        model_inv(s),
    ensures
        ({
            let (after, action) = step_spec(
                s,
                SchedulerEvent::RequestReceived(
                    SchedulerTaskRequest::ScheduleTimeout { identifier, boxed_future },
                ),
                now,
            );
            ||| after.pending.contains_key(identifier) && after.pending[identifier] == boxed_future
            ||| action == SchedulerAction::RunTimeout(boxed_future) && identifier.run_at < now
                + s.min_timeout_delay && !after.pending.contains_key(identifier)
        }),
{
    let p = s.pending.insert(identifier, boxed_future);
    assert(p.contains_key(identifier));
    assert(p.dom().finite());
    lemma_earliest_exists(p);
}

/// When the request channel is closed, the scheduler stops and its state stays as it was.
pub proof fn law_stops_when_channel_closed<F>(s: SchedulerModel<F>, now: u128)
    ensures
        step_spec(s, SchedulerEvent::ChannelClosed, now) == (s, SchedulerAction::<F>::Stop),
{
}

/// The identifier that a request is about: the one it schedules or the one it cancels.
pub open spec fn request_identifier<F>(request: SchedulerTaskRequest<F>) -> ScheduledTimeoutIdentifier {
    match request {
        SchedulerTaskRequest::ScheduleTimeout { identifier, .. } => identifier,
        SchedulerTaskRequest::CancelTimeout(token) => token.identifier(),
    }
}

/// A pending timeout stays pending with its future, unless a request is about it (cancels or
/// replaces it) or the step hands it out to run as the earliest pending timeout.
pub proof fn law_pending_timeout_kept<F>(
    s: SchedulerModel<F>,
    event: SchedulerEvent<F>,
    now: u128,
    id: ScheduledTimeoutIdentifier,
)
    requires
        model_inv(s),
        s.pending.contains_key(id),
        event matches SchedulerEvent::RequestReceived(request) ==> request_identifier(request) != id,
    ensures
        ({
            let (after, action) = step_spec(s, event, now);
            ||| after.pending.contains_key(id) && after.pending[id] == s.pending[id]
            ||| action == SchedulerAction::RunTimeout(s.pending[id]) && id == earliest(
                pending_of_step(s, event),
            ) && !after.pending.contains_key(id)
        }),
{
    let p = pending_of_step(s, event);
    assert(p.contains_key(id) && p[id] == s.pending[id]);
    match event {
        SchedulerEvent::DelayElapsed => {},
        SchedulerEvent::ChannelClosed => {},
        _ => {
            lemma_step_settles(s, event, now);
            lemma_settle_within(p, s.min_timeout_delay, early_by_of_step(s, event), now);
        },
    }
}

/// When a step leads the scheduler to wait for a delay and that delay then passes, the timeout
/// handed out is the earliest pending one, and its point in time is exactly the point in time of
/// the step plus the delay. So when the delay passed no earlier than it was asked to, the timeout
/// does not run before its point in time.
pub proof fn law_elapsed_delay_runs_at_its_time<F>(
    s: SchedulerModel<F>,
    event: SchedulerEvent<F>,
    now: u128,
    delay: u128,
    later: u128,
)
    requires
        model_inv(s),
        event is DelayElapsed ==> s.cur_delay is Some,
        step_spec(s, event, now).1 == SchedulerAction::<F>::WaitForRequestOrDelay(delay),
    ensures
        ({
            let waiting = step_spec(s, event, now).0;
            let first = earliest(waiting.pending);
            let (after, action) = step_spec(waiting, SchedulerEvent::DelayElapsed, later);
            &&& is_earliest(waiting.pending, first)
            &&& first.run_at == now + delay
            &&& action == SchedulerAction::RunTimeout(waiting.pending[first])
            &&& after.pending == waiting.pending.remove(first)
            &&& later >= now + delay ==> first.run_at <= later
        }),
{
    law_waits_for_earliest(s, event, now);
}

/// Whether the action returned by a step fits the state it left: a wait for a delay leaves that
/// delay set and some timeout pending, and a wait with no deadline leaves nothing pending.
pub open spec fn action_fits_state<F>(s: SchedulerModel<F>, action: SchedulerAction<F>) -> bool {
    match action {
        SchedulerAction::WaitForRequestOrDelay(delay) => s.cur_delay == Some(delay)
            && !s.pending.dom().is_empty(),
        SchedulerAction::WaitForRequest => s.pending.dom().is_empty() && s.cur_delay is None,
        _ => true,
    }
}

/// Every step returns an action that fits the state it leaves.
pub proof fn law_action_fits_state<F>(s: SchedulerModel<F>, event: SchedulerEvent<F>, now: u128)
    requires
        model_inv(s),
    ensures
        action_fits_state(step_spec(s, event, now).0, step_spec(s, event, now).1) || step_spec(
            s,
            event,
            now,
        ).1 is Stop,
{
    law_waits_for_earliest(s, event, now);
    let (after, action) = step_spec(s, event, now);
    if action is WaitForRequestOrDelay {
        lemma_earliest_exists(after.pending);
    }
}

/// Whether identifiers come in strictly ascending order, so that none occurs twice.
pub open spec fn ascending_identifiers(ids: Seq<ScheduledTimeoutIdentifier>) -> bool {
    forall|i: int, j: int| 0 <= i < j < ids.len() ==> (#[trigger] ids[i]).before(#[trigger] ids[j])
}

/// The identifier of the timeout that a step hands out, as a sequence of at most one.
pub open spec fn handed_out<F>(
    pending: Map<ScheduledTimeoutIdentifier, F>,
    action: SchedulerAction<F>,
) -> Seq<ScheduledTimeoutIdentifier> {
    if action is RunTimeout {
        seq![earliest(pending)]
    } else {
        Seq::empty()
    }
}

/// The identifiers of the timeouts that the scheduler hands out, in order, when no request
/// arrives: from the state `s` left by a step that returned `action`, each further step takes the
/// event that the action leads to (a finished timeout after a run, an elapsed delay after a wait),
/// at the points in time `nows`, one step for each.
pub open spec fn handed_out_without_requests<F>(
    s: SchedulerModel<F>,
    action: SchedulerAction<F>,
    nows: Seq<u128>,
) -> Seq<ScheduledTimeoutIdentifier>
    decreases nows.len(),
{
    if nows.len() == 0 {
        Seq::empty()
    } else {
        match action {
            SchedulerAction::RunTimeout(_) => {
                let next = step_spec(s, SchedulerEvent::TimeoutFinished, nows[0]);
                handed_out(s.pending, next.1) + handed_out_without_requests(
                    next.0,
                    next.1,
                    nows.drop_first(),
                )
            },
            SchedulerAction::WaitForRequestOrDelay(_) => {
                let next = step_spec(s, SchedulerEvent::DelayElapsed, nows[0]);
                handed_out(s.pending, next.1) + handed_out_without_requests(
                    next.0,
                    next.1,
                    nows.drop_first(),
                )
            },
            _ => Seq::empty(),
        }
    }
}

/// How many steps without requests suffice to hand out every pending timeout: two for each,
/// one less when the scheduler already waits for the earliest.
pub open spec fn steps_to_run_all<F>(s: SchedulerModel<F>, action: SchedulerAction<F>) -> nat {
    match action {
        SchedulerAction::RunTimeout(_) => 2 * s.pending.dom().len(),
        SchedulerAction::WaitForRequestOrDelay(_) => (2 * s.pending.dom().len() - 1) as nat,
        _ => 0,
    }
}

/// Every timeout that is pending when requests stop arriving is run, exactly once and in the
/// order of identifiers: within `steps_to_run_all` steps the scheduler hands out each pending
/// timeout once, in strictly ascending order, and no other.
pub proof fn law_runs_every_pending_timeout_once<F>(
    s: SchedulerModel<F>,
    action: SchedulerAction<F>,
    nows: Seq<u128>,
)
    requires
        model_inv(s),
        action_fits_state(s, action),
        !(action is Stop),
        nows.len() >= steps_to_run_all(s, action),
    ensures
        ({
            let ids = handed_out_without_requests(s, action, nows);
            &&& ascending_identifiers(ids)
            &&& forall|id: ScheduledTimeoutIdentifier|
                ids.contains(id) <==> s.pending.contains_key(id)
        }),
    decreases nows.len(),
{
    let p = s.pending;
    let ids = handed_out_without_requests(s, action, nows);
    if p.dom().is_empty() {
        assert(p.dom().len() == 0);
    } else {
        assert(p.dom().len() > 0) by {
            if p.dom().len() == 0 {
                p.dom().lemma_len0_is_empty();
            }
        }
    }
    if nows.len() == 0 {
        if !(action is WaitForRequest) {
            p.dom().lemma_len0_is_empty();
        }
        assert(ids =~= Seq::<ScheduledTimeoutIdentifier>::empty());
        return;
    }
    if action is WaitForRequest {
        assert(ids =~= Seq::<ScheduledTimeoutIdentifier>::empty());
        return;
    }
    let event = if action is RunTimeout {
        SchedulerEvent::<F>::TimeoutFinished
    } else {
        SchedulerEvent::<F>::DelayElapsed
    };
    let next = step_spec(s, event, nows[0]);
    law_step_keeps_invariant(s, event, nows[0]);
    law_action_fits_state(s, event, nows[0]);
    let rest = handed_out_without_requests(next.0, next.1, nows.drop_first());
    assert(ids == handed_out(p, next.1) + rest);
    if next.1 is RunTimeout {
        lemma_earliest_exists(p);
        let first = earliest(p);
        assert(next.0.pending == p.remove(first));
        assert(p.remove(first).dom() =~= p.dom().remove(first));
        law_runs_every_pending_timeout_once(next.0, next.1, nows.drop_first());
        assert(ids =~= seq![first] + rest);
        assert forall|i: int, j: int| 0 <= i < j < ids.len() implies (#[trigger] ids[i]).before(
            #[trigger] ids[j],
        ) by {
            if i == 0 {
                assert(rest[j - 1] == ids[j]);
                assert(rest.contains(rest[j - 1]));
                assert(p.contains_key(ids[j]) && ids[j] != first);
            } else {
                assert(rest[i - 1] == ids[i] && rest[j - 1] == ids[j]);
            }
        }
        assert forall|id: ScheduledTimeoutIdentifier| ids.contains(id) <==> p.contains_key(id) by {
            if ids.contains(id) {
                let i = choose|i: int| 0 <= i < ids.len() && ids[i] == id;
                if i > 0 {
                    assert(rest[i - 1] == id);
                    assert(rest.contains(id));
                }
            }
            if p.contains_key(id) {
                if id == first {
                    assert(ids[0] == id);
                } else {
                    assert(rest.contains(id));
                    let j = choose|j: int| 0 <= j < rest.len() && rest[j] == id;
                    assert(ids[j + 1] == id);
                }
            }
        }
    } else {
        assert(ids =~= rest);
        if next.1 is WaitForRequestOrDelay {
            assert(next.0.pending == p);
        } else {
            assert(next.1 is WaitForRequest);
            assert(next.0.pending == p);
        }
        law_runs_every_pending_timeout_once(next.0, next.1, nows.drop_first());
    }
}

/// Whether an event can follow an action: the scheduler reports a finished timeout after running
/// one, a request, an elapsed delay or a closed channel after waiting for a delay, and a request or
/// a closed channel after waiting with no deadline; nothing follows a stop.
pub open spec fn event_follows<F>(action: SchedulerAction<F>, event: SchedulerEvent<F>) -> bool {
    match action {
        SchedulerAction::RunTimeout(_) => event is TimeoutFinished,
        SchedulerAction::WaitForRequestOrDelay(_) => !(event is TimeoutFinished),
        SchedulerAction::WaitForRequest => event is RequestReceived || event is ChannelClosed,
        SchedulerAction::Stop => false,
    }
}

/// The state and action after the scheduler takes `events` at the points in time `nows`, one step
/// for each, starting from the state `s` left by a step that returned `action`; and the
/// identifiers of the timeouts handed out on the way, in order.
pub open spec fn run_events<F>(
    s: SchedulerModel<F>,
    action: SchedulerAction<F>,
    events: Seq<SchedulerEvent<F>>,
    nows: Seq<u128>,
) -> (SchedulerModel<F>, SchedulerAction<F>, Seq<ScheduledTimeoutIdentifier>)
    decreases events.len(),
{
    if events.len() == 0 || nows.len() == 0 {
        (s, action, Seq::empty())
    } else {
        let next = step_spec(s, events[0], nows[0]);
        let rest = run_events(next.0, next.1, events.drop_first(), nows.drop_first());
        (rest.0, rest.1, handed_out(pending_of_step(s, events[0]), next.1) + rest.2)
    }
}

/// Whether each of `events` can follow the action before it, starting from `action`.
pub open spec fn follows_actions<F>(
    s: SchedulerModel<F>,
    action: SchedulerAction<F>,
    events: Seq<SchedulerEvent<F>>,
    nows: Seq<u128>,
) -> bool
    decreases events.len(),
{
    if events.len() == 0 || nows.len() == 0 {
        true
    } else {
        let next = step_spec(s, events[0], nows[0]);
        event_follows(action, events[0]) && follows_actions(
            next.0,
            next.1,
            events.drop_first(),
            nows.drop_first(),
        )
    }
}

/// Whether no request among `events` is about the timeout `id`.
pub open spec fn requests_avoid<F>(events: Seq<SchedulerEvent<F>>, id: ScheduledTimeoutIdentifier) -> bool {
    forall|i: int|
        0 <= i < events.len() ==> (#[trigger] events[i] matches SchedulerEvent::RequestReceived(
            request,
        ) ==> request_identifier(request) != id)
}

/// Whether `id` occurs exactly once in `ids`.
pub open spec fn occurs_once(ids: Seq<ScheduledTimeoutIdentifier>, id: ScheduledTimeoutIdentifier) -> bool {
    exists|i: int|
        0 <= i < ids.len() && ids[i] == id && forall|j: int|
            0 <= j < ids.len() && j != i ==> #[trigger] ids[j] != id
}

/// One step that follows an action keeps the invariant and returns an action that fits its state.
proof fn lemma_step_follows<F>(
    s: SchedulerModel<F>,
    action: SchedulerAction<F>,
    event: SchedulerEvent<F>,
    now: u128,
)
    requires
        model_inv(s),
        action_fits_state(s, action),
        event_follows(action, event),
    ensures
        model_inv(step_spec(s, event, now).0),
        action_fits_state(step_spec(s, event, now).0, step_spec(s, event, now).1),
        event is DelayElapsed ==> s.cur_delay is Some,
{
    law_step_keeps_invariant(s, event, now);
    law_action_fits_state(s, event, now);
}

/// Runs of steps that follow the actions keep the invariant and the minimum delay, and end on an
/// action that fits the state they leave.
pub proof fn law_run_keeps_invariant<F>(
    s: SchedulerModel<F>,
    action: SchedulerAction<F>,
    events: Seq<SchedulerEvent<F>>,
    nows: Seq<u128>,
)
    requires
        model_inv(s),
        action_fits_state(s, action),
        follows_actions(s, action, events, nows),
    ensures
        model_inv(run_events(s, action, events, nows).0),
        action_fits_state(run_events(s, action, events, nows).0, run_events(s, action, events, nows).1),
        run_events(s, action, events, nows).0.min_timeout_delay == s.min_timeout_delay,
    decreases events.len(),
{
    if events.len() != 0 && nows.len() != 0 {
        lemma_step_follows(s, action, events[0], nows[0]);
        law_step_keeps_min_delay(s, events[0], nows[0]);
        let next = step_spec(s, events[0], nows[0]);
        law_run_keeps_invariant(next.0, next.1, events.drop_first(), nows.drop_first());
    }
}

/// A timeout that is not pending, and that no request of a run schedules, is never handed out in
/// that run and is not pending at its end: a cancelled timeout never runs.
pub proof fn law_not_pending_never_runs<F>(
    s: SchedulerModel<F>,
    action: SchedulerAction<F>,
    events: Seq<SchedulerEvent<F>>,
    nows: Seq<u128>,
    id: ScheduledTimeoutIdentifier,
)
    requires
        model_inv(s),
        action_fits_state(s, action),
        follows_actions(s, action, events, nows),
        !s.pending.contains_key(id),
        requests_avoid(events, id),
    ensures
        !run_events(s, action, events, nows).2.contains(id),
        !run_events(s, action, events, nows).0.pending.contains_key(id),
    decreases events.len(),
{
    if events.len() == 0 || nows.len() == 0 {
        return;
    }
    let event = events[0];
    lemma_step_follows(s, action, event, nows[0]);
    let next = step_spec(s, event, nows[0]);
    let p = pending_of_step(s, event);
    assert(!p.contains_key(id)) by {
        assert(events[0] == event);
    }
    law_runs_earliest_pending(s, event, nows[0]);
    if !(next.1 is RunTimeout) {
        if event is DelayElapsed {
        } else if event is ChannelClosed {
        } else {
            lemma_step_settles(s, event, nows[0]);
            lemma_settle_within(p, s.min_timeout_delay, early_by_of_step(s, event), nows[0]);
        }
    }
    assert(!next.0.pending.contains_key(id));
    assert(requests_avoid(events.drop_first(), id)) by {
        assert forall|i: int| 0 <= i < events.drop_first().len() implies (
        #[trigger] events.drop_first()[i] matches SchedulerEvent::RequestReceived(request)
            ==> request_identifier(request) != id) by {
            assert(events.drop_first()[i] == events[i + 1]);
        }
    }
    law_not_pending_never_runs(next.0, next.1, events.drop_first(), nows.drop_first(), id);
    let rest = run_events(next.0, next.1, events.drop_first(), nows.drop_first());
    let head = handed_out(p, next.1);
    assert(!head.contains(id));
    assert(run_events(s, action, events, nows).2 == head + rest.2);
    assert(!(head + rest.2).contains(id)) by {
        if (head + rest.2).contains(id) {
            let i = choose|i: int| 0 <= i < (head + rest.2).len() && (head + rest.2)[i] == id;
            if i < head.len() {
                assert(head[i] == id);
            } else {
                assert(rest.2[i - head.len()] == id);
            }
        }
    }
}

/// A pending timeout that no request of a run is about either stays pending with its future and
/// is not handed out, or is handed out exactly once and is no longer pending.
pub proof fn law_pending_timeout_runs_at_most_once<F>(
    s: SchedulerModel<F>,
    action: SchedulerAction<F>,
    events: Seq<SchedulerEvent<F>>,
    nows: Seq<u128>,
    id: ScheduledTimeoutIdentifier,
)
    requires
        model_inv(s),
        action_fits_state(s, action),
        follows_actions(s, action, events, nows),
        s.pending.contains_key(id),
        requests_avoid(events, id),
    ensures
        ({
            let (end, _, ids) = run_events(s, action, events, nows);
            ||| end.pending.contains_key(id) && end.pending[id] == s.pending[id] && !ids.contains(id)
            ||| !end.pending.contains_key(id) && occurs_once(ids, id)
        }),
    decreases events.len(),
{
    if events.len() == 0 || nows.len() == 0 {
        return;
    }
    let event = events[0];
    lemma_step_follows(s, action, event, nows[0]);
    let next = step_spec(s, event, nows[0]);
    let p = pending_of_step(s, event);
    assert(events[0] == event);
    law_pending_timeout_kept(s, event, nows[0], id);
    law_runs_earliest_pending(s, event, nows[0]);
    assert(requests_avoid(events.drop_first(), id)) by {
        assert forall|i: int| 0 <= i < events.drop_first().len() implies (
        #[trigger] events.drop_first()[i] matches SchedulerEvent::RequestReceived(request)
            ==> request_identifier(request) != id) by {
            assert(events.drop_first()[i] == events[i + 1]);
        }
    }
    let rest = run_events(next.0, next.1, events.drop_first(), nows.drop_first());
    let head = handed_out(p, next.1);
    let ids = head + rest.2;
    assert(run_events(s, action, events, nows).2 == ids);
    if next.0.pending.contains_key(id) && next.0.pending[id] == s.pending[id] {
        assert(!head.contains(id)) by {
            if next.1 is RunTimeout {
                assert(head[0] == earliest(p));
            }
        }
        law_pending_timeout_runs_at_most_once(
            next.0,
            next.1,
            events.drop_first(),
            nows.drop_first(),
            id,
        );
        if rest.2.contains(id) {
            let i = choose|i: int|
                0 <= i < rest.2.len() && rest.2[i] == id && forall|j: int|
                    0 <= j < rest.2.len() && j != i ==> #[trigger] rest.2[j] != id;
            assert(ids[i + head.len()] == id);
            assert forall|j: int| 0 <= j < ids.len() && j != i + head.len() implies #[trigger] ids[j]
                != id by {
                if j < head.len() {
                    assert(ids[j] == head[j]);
                } else {
                    assert(ids[j] == rest.2[j - head.len()]);
                }
            }
        } else {
            assert(!ids.contains(id)) by {
                if ids.contains(id) {
                    let i = choose|i: int| 0 <= i < ids.len() && ids[i] == id;
                    if i < head.len() {
                        assert(head[i] == id);
                    } else {
                        assert(rest.2[i - head.len()] == id);
                    }
                }
            }
        }
    } else {
        assert(head == seq![id]);
        law_not_pending_never_runs(next.0, next.1, events.drop_first(), nows.drop_first(), id);
        assert(ids[0] == id);
        assert forall|j: int| 0 <= j < ids.len() && j != 0 implies #[trigger] ids[j] != id by {
            assert(ids[j] == rest.2[j - 1]);
        }
    }
}

/// Every pending timeout that no request is about runs exactly once: whatever requests about
/// other timeouts, elapsed delays and finished timeouts come in a run, once requests stop
/// arriving the scheduler hands the timeout out exactly once within `steps_to_run_all` further
/// steps.
pub proof fn law_pending_timeout_runs_exactly_once<F>(
    s: SchedulerModel<F>,
    action: SchedulerAction<F>,
    events: Seq<SchedulerEvent<F>>,
    nows: Seq<u128>,
    later: Seq<u128>,
    id: ScheduledTimeoutIdentifier,
)
    requires
        model_inv(s),
        action_fits_state(s, action),
        follows_actions(s, action, events, nows),
        s.pending.contains_key(id),
        requests_avoid(events, id),
        !(run_events(s, action, events, nows).1 is Stop),
        later.len() >= steps_to_run_all(
            run_events(s, action, events, nows).0,
            run_events(s, action, events, nows).1,
        ),
    ensures
        ({
            let (end, last, ids) = run_events(s, action, events, nows);
            occurs_once(ids + handed_out_without_requests(end, last, later), id)
        }),
{
    let (end, last, ids) = run_events(s, action, events, nows);
    law_run_keeps_invariant(s, action, events, nows);
    law_pending_timeout_runs_at_most_once(s, action, events, nows, id);
    law_runs_every_pending_timeout_once(end, last, later);
    let tail = handed_out_without_requests(end, last, later);
    let all = ids + tail;
    if end.pending.contains_key(id) {
        assert(tail.contains(id));
        let k = choose|k: int| 0 <= k < tail.len() && tail[k] == id;
        assert(all[ids.len() + k] == id);
        assert forall|j: int| 0 <= j < all.len() && j != ids.len() + k implies #[trigger] all[j]
            != id by {
            if j < ids.len() {
                assert(all[j] == ids[j]);
                assert(ids.contains(ids[j]));
            } else {
                assert(all[j] == tail[j - ids.len()]);
                let jj = j - ids.len();
                if tail[jj] == id {
                    if jj < k {
                        assert(tail[jj].before(tail[k]));
                    } else {
                        assert(tail[k].before(tail[jj]));
                    }
                }
            }
        }
    } else {
        let i = choose|i: int|
            0 <= i < ids.len() && ids[i] == id && forall|j: int|
                0 <= j < ids.len() && j != i ==> #[trigger] ids[j] != id;
        assert(all[i] == id);
        assert forall|j: int| 0 <= j < all.len() && j != i implies #[trigger] all[j] != id by {
            if j < ids.len() {
                assert(all[j] == ids[j]);
            } else {
                assert(all[j] == tail[j - ids.len()]);
                assert(tail.contains(tail[j - ids.len()]));
            }
        }
    }
}

} // verus!
