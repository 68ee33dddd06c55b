use crate::scheduled_timeout::ScheduledTimeoutIdentifier;
use vstd::prelude::*;

verus! {

/// Whether the identifiers of `entries` are strictly ascending, so that no identifier occurs twice
/// and the timeout that should run first comes first.
pub open spec fn strictly_ascending<F>(entries: Seq<(ScheduledTimeoutIdentifier, F)>) -> bool {
    forall|i: int, j: int|
        0 <= i < j < entries.len() ==> (#[trigger] entries[i]).0.before((#[trigger] entries[j]).0)
}

/// Whether `id` is the identifier of the entry at some position of `entries`.
pub open spec fn holds_key_at<F>(
    entries: Seq<(ScheduledTimeoutIdentifier, F)>,
    id: ScheduledTimeoutIdentifier,
    i: int,
) -> bool {
    0 <= i < entries.len() && entries[i].0 == id
}

/// The map from identifiers to futures that a sequence of entries stands for.
pub open spec fn entries_map<F>(entries: Seq<(ScheduledTimeoutIdentifier, F)>) -> Map<
    ScheduledTimeoutIdentifier,
    F,
> {
    Map::new(
        |id: ScheduledTimeoutIdentifier| exists|i: int| #[trigger] holds_key_at(entries, id, i),
        |id: ScheduledTimeoutIdentifier|
            entries[choose|i: int| #[trigger] holds_key_at(entries, id, i)].1,
    )
}

/// Whether `id` is the pending timeout that should run first: every other pending timeout comes
/// after it.
pub open spec fn is_earliest<F>(
    pending: Map<ScheduledTimeoutIdentifier, F>,
    id: ScheduledTimeoutIdentifier,
) -> bool {
    &&& pending.contains_key(id)
    &&& forall|other: ScheduledTimeoutIdentifier| #[trigger]
        pending.contains_key(other) && other != id ==> id.before(other)
}

/// The pending timeout that should run first (meaningful when some timeout is pending).
pub open spec fn earliest<F>(pending: Map<ScheduledTimeoutIdentifier, F>) -> ScheduledTimeoutIdentifier {
    choose|id: ScheduledTimeoutIdentifier| is_earliest(pending, id)
}

/// The earliest pending timeout is unique.
pub proof fn lemma_earliest_unique<F>(
    pending: Map<ScheduledTimeoutIdentifier, F>,
    a: ScheduledTimeoutIdentifier,
    b: ScheduledTimeoutIdentifier,
)
    requires
        is_earliest(pending, a),
        is_earliest(pending, b),
    ensures
        a == b,
{
    if a != b {
        assert(pending.contains_key(b));
        assert(pending.contains_key(a));
    }
}

/// A finite, non-empty set of pending timeouts has an earliest one.
pub proof fn lemma_earliest_exists<F>(pending: Map<ScheduledTimeoutIdentifier, F>)
    requires
        pending.dom().finite(),
        !pending.dom().is_empty(),
    ensures
        is_earliest(pending, earliest(pending)),
    decreases pending.dom().len(),
{
    let k = pending.dom().choose();
    assert(pending.dom().contains(k)) by {
        assert(pending.dom().len() != 0) by {
            if pending.dom().len() == 0 {
                pending.dom().lemma_len0_is_empty();
            }
        }
    }
    let rest = pending.remove(k);
    assert(rest.dom() =~= pending.dom().remove(k));
    if rest.dom().is_empty() {
        assert forall|other: ScheduledTimeoutIdentifier| #[trigger]
            pending.contains_key(other) && other != k implies k.before(other) by {
            assert(rest.dom().contains(other));
        }
        assert(is_earliest(pending, k));
    } else {
        lemma_earliest_exists(rest);
        let e = earliest(rest);
        if k.before(e) {
            assert forall|other: ScheduledTimeoutIdentifier| #[trigger]
                pending.contains_key(other) && other != k implies k.before(other) by {
                if other != e {
                    assert(rest.contains_key(other));
                }
            }
            assert(is_earliest(pending, k));
        } else {
            assert forall|other: ScheduledTimeoutIdentifier| #[trigger]
                pending.contains_key(other) && other != e implies e.before(other) by {
                if other != k {
                    assert(rest.contains_key(other));
                }
            }
            assert(is_earliest(pending, e));
        }
    }
}

/// Facts about the map of a strictly ascending sequence of entries: each entry's identifier maps
/// to its future, and only those identifiers are present.
proof fn lemma_entries_map_at<F>(entries: Seq<(ScheduledTimeoutIdentifier, F)>, i: int)
    requires
        strictly_ascending(entries),
        0 <= i < entries.len(),
    ensures
        entries_map(entries).contains_key(entries[i].0),
        entries_map(entries)[entries[i].0] == entries[i].1,
{
    let id = entries[i].0;
    assert(holds_key_at(entries, id, i));
    let j = choose|j: int| #[trigger] holds_key_at(entries, id, j);
    if j < i {
        assert(entries[j].0.before(entries[i].0));
    } else if j > i {
        assert(entries[i].0.before(entries[j].0));
    }
}

/// The identifiers of a sequence of entries form a finite set.
proof fn lemma_entries_map_finite<F>(entries: Seq<(ScheduledTimeoutIdentifier, F)>)
    ensures
        entries_map(entries).dom().finite(),
        entries_map(entries).dom().is_empty() <==> entries.len() == 0,
{
    let keys = entries.map_values(|e: (ScheduledTimeoutIdentifier, F)| e.0);
    assert forall|id: ScheduledTimeoutIdentifier|
        entries_map(entries).dom().contains(id) <==> keys.to_set().contains(id) by {
        if entries_map(entries).dom().contains(id) {
            let i = choose|i: int| #[trigger] holds_key_at(entries, id, i);
            assert(keys[i] == id);
        }
        if keys.to_set().contains(id) {
            let i = choose|i: int| 0 <= i < keys.len() && keys[i] == id;
            assert(holds_key_at(entries, id, i));
        }
    }
    assert(entries_map(entries).dom() =~= keys.to_set());
    vstd::seq_lib::seq_to_set_is_finite(keys);
    if entries.len() != 0 {
        assert(holds_key_at(entries, entries[0].0, 0));
        assert(entries_map(entries).dom().contains(entries[0].0));
    }
}

/// The first entry of a non-empty strictly ascending sequence is the earliest pending timeout.
proof fn lemma_first_is_earliest<F>(entries: Seq<(ScheduledTimeoutIdentifier, F)>)
    requires
        strictly_ascending(entries),
        entries.len() > 0,
    ensures
        is_earliest(entries_map(entries), entries[0].0),
        earliest(entries_map(entries)) == entries[0].0,
        entries_map(entries)[entries[0].0] == entries[0].1,
{
    let m = entries_map(entries);
    lemma_entries_map_at(entries, 0);
    assert forall|other: ScheduledTimeoutIdentifier| #[trigger]
        m.contains_key(other) && other != entries[0].0 implies entries[0].0.before(other) by {
        let i = choose|i: int| #[trigger] holds_key_at(entries, other, i);
        assert(i != 0);
        assert(entries[0].0.before(entries[i].0));
    }
    assert(is_earliest(m, entries[0].0));
    lemma_earliest_unique(m, earliest(m), entries[0].0);
}

/// Inserting an entry at the position where its identifier belongs keeps the entries strictly
/// ascending and adds the identifier to the map.
proof fn lemma_insert_entry<F>(
    entries: Seq<(ScheduledTimeoutIdentifier, F)>,
    p: int,
    id: ScheduledTimeoutIdentifier,
    f: F,
)
    requires
        strictly_ascending(entries),
        0 <= p <= entries.len(),
        forall|j: int| 0 <= j < p ==> (#[trigger] entries[j]).0.before(id),
        forall|j: int| p <= j < entries.len() ==> id.before((#[trigger] entries[j]).0),
    ensures
        strictly_ascending(entries.insert(p, (id, f))),
        entries_map(entries.insert(p, (id, f))) =~= entries_map(entries).insert(id, f),
{
    let t = entries.insert(p, (id, f));
    assert forall|i: int, j: int| 0 <= i < j < t.len() implies (#[trigger] t[i]).0.before(
        (#[trigger] t[j]).0,
    ) by {
        if j < p {
            assert(entries[i].0.before(entries[j].0));
        } else if j == p {
            assert(entries[i].0.before(id));
        } else if i < p {
            assert(entries[i].0.before(entries[j - 1].0));
        } else if i == p {
            assert(id.before(entries[j - 1].0));
        } else {
            assert(entries[i - 1].0.before(entries[j - 1].0));
        }
    }
    let m = entries_map(entries);
    let mt = entries_map(t);
    assert forall|x: ScheduledTimeoutIdentifier| mt.contains_key(x) <==> m.insert(id, f).contains_key(
        x,
    ) by {
        if mt.contains_key(x) {
            let i = choose|i: int| #[trigger] holds_key_at(t, x, i);
            if i < p {
                assert(holds_key_at(entries, x, i));
            } else if i > p {
                assert(holds_key_at(entries, x, i - 1));
            }
        }
        if m.contains_key(x) {
            let i = choose|i: int| #[trigger] holds_key_at(entries, x, i);
            if i < p {
                assert(holds_key_at(t, x, i));
            } else {
                assert(holds_key_at(t, x, i + 1));
            }
        }
        if x == id {
            assert(holds_key_at(t, x, p));
        }
    }
    assert forall|x: ScheduledTimeoutIdentifier| #[trigger]
        mt.contains_key(x) implies mt[x] == m.insert(id, f)[x] by {
        let i = choose|i: int| #[trigger] holds_key_at(t, x, i);
        lemma_entries_map_at(t, i);
        if i < p {
            lemma_entries_map_at(entries, i);
        } else if i > p {
            lemma_entries_map_at(entries, i - 1);
        }
    }
}

/// Replacing the future of an entry keeps the entries strictly ascending and maps its identifier
/// to the new future.
proof fn lemma_replace_entry<F>(entries: Seq<(ScheduledTimeoutIdentifier, F)>, p: int, f: F)
    requires
        strictly_ascending(entries),
        0 <= p < entries.len(),
    ensures
        strictly_ascending(entries.update(p, (entries[p].0, f))),
        entries_map(entries.update(p, (entries[p].0, f))) =~= entries_map(entries).insert(
            entries[p].0,
            f,
        ),
{
    let id = entries[p].0;
    let t = entries.update(p, (id, f));
    assert forall|i: int, j: int| 0 <= i < j < t.len() implies (#[trigger] t[i]).0.before(
        (#[trigger] t[j]).0,
    ) by {
        assert(entries[i].0.before(entries[j].0));
    }
    let m = entries_map(entries);
    let mt = entries_map(t);
    assert forall|x: ScheduledTimeoutIdentifier| mt.contains_key(x) <==> m.insert(id, f).contains_key(
        x,
    ) by {
        if mt.contains_key(x) {
            let i = choose|i: int| #[trigger] holds_key_at(t, x, i);
            assert(holds_key_at(entries, x, i));
        }
        if m.contains_key(x) {
            let i = choose|i: int| #[trigger] holds_key_at(entries, x, i);
            assert(holds_key_at(t, x, i));
        }
        if x == id {
            assert(holds_key_at(t, x, p));
        }
    }
    assert forall|x: ScheduledTimeoutIdentifier| #[trigger]
        mt.contains_key(x) implies mt[x] == m.insert(id, f)[x] by {
        let i = choose|i: int| #[trigger] holds_key_at(t, x, i);
        lemma_entries_map_at(t, i);
        if i != p {
            lemma_entries_map_at(entries, i);
        }
    }
}

/// Removing an entry keeps the entries strictly ascending and removes its identifier from the
/// map.
proof fn lemma_remove_entry<F>(entries: Seq<(ScheduledTimeoutIdentifier, F)>, p: int)
    requires
        strictly_ascending(entries),
        0 <= p < entries.len(),
    ensures
        strictly_ascending(entries.remove(p)),
        entries_map(entries.remove(p)) =~= entries_map(entries).remove(entries[p].0),
{
    let id = entries[p].0;
    let t = entries.remove(p);
    assert forall|i: int, j: int| 0 <= i < j < t.len() implies (#[trigger] t[i]).0.before(
        (#[trigger] t[j]).0,
    ) by {
        if j < p {
            assert(entries[i].0.before(entries[j].0));
        } else if i < p {
            assert(entries[i].0.before(entries[j + 1].0));
        } else {
            assert(entries[i + 1].0.before(entries[j + 1].0));
        }
    }
    let m = entries_map(entries);
    let mt = entries_map(t);
    assert forall|x: ScheduledTimeoutIdentifier| mt.contains_key(x) <==> m.remove(id).contains_key(
        x,
    ) by {
        if mt.contains_key(x) {
            let i = choose|i: int| #[trigger] holds_key_at(t, x, i);
            if i < p {
                assert(holds_key_at(entries, x, i));
                assert(entries[i].0.before(entries[p].0));
            } else {
                assert(holds_key_at(entries, x, i + 1));
                assert(entries[p].0.before(entries[i + 1].0));
            }
        }
        if m.contains_key(x) && x != id {
            let i = choose|i: int| #[trigger] holds_key_at(entries, x, i);
            if i < p {
                assert(holds_key_at(t, x, i));
            } else {
                assert(holds_key_at(t, x, i - 1));
            }
        }
    }
    assert forall|x: ScheduledTimeoutIdentifier| #[trigger]
        mt.contains_key(x) implies mt[x] == m.remove(id)[x] by {
        let i = choose|i: int| #[trigger] holds_key_at(t, x, i);
        lemma_entries_map_at(t, i);
        if i < p {
            lemma_entries_map_at(entries, i);
        } else {
            lemma_entries_map_at(entries, i + 1);
        }
    }
}

/// A cancellation token which allows cancelling a timeout.
///
/// This token is returned when a timeout is scheduled.
#[derive(Debug, Clone, Copy)]
pub struct CancellationToken {
    timeout_identifier: ScheduledTimeoutIdentifier,
}

impl CancellationToken {
    /// The identifier of the timeout that this token cancels.
    pub closed spec fn identifier(self) -> ScheduledTimeoutIdentifier {
        self.timeout_identifier
    }
}

/// A request sent to the scheduler task.
pub enum SchedulerTaskRequest<F> {
    /// Schedule `boxed_future` to run at the point in time given by `identifier`.
    ScheduleTimeout { identifier: ScheduledTimeoutIdentifier, boxed_future: F },
    /// Cancel the timeout that the token was handed out for.
    CancelTimeout(CancellationToken),
}

impl<F> SchedulerTaskRequest<F> {
    /// Prepares the request that schedules `boxed_future`, stored at `boxed_future_addr`, to run
    /// `delay` nanoseconds after the point in time `now`, together with the token that cancels it.
    ///
    /// Returns `None` when the point in time `now + delay` cannot be represented.
    pub fn schedule_timeout(now: u128, delay: u128, boxed_future_addr: usize, boxed_future: F) -> (res:
        Option<(Self, CancellationToken)>)
        ensures
            res is None <==> now + delay > u128::MAX,
            res matches Some((request, token)) ==> {
                let id = ScheduledTimeoutIdentifier {
                    run_at: (now + delay) as u128,
                    boxed_future_addr,
                };
                &&& request == (SchedulerTaskRequest::ScheduleTimeout { identifier: id, boxed_future })
                &&& token.identifier() == id
            },
    {
        match now.checked_add(delay) {
            None => None,
            Some(run_at) => {
                let identifier = ScheduledTimeoutIdentifier::new(run_at, boxed_future_addr);
                let token = CancellationToken { timeout_identifier: identifier };
                Some((SchedulerTaskRequest::ScheduleTimeout { identifier, boxed_future }, token))
            },
        }
    }
}

/// What happened to the scheduler task since its last step.
pub enum SchedulerEvent<F> {
    /// A request arrived on the request channel.
    RequestReceived(SchedulerTaskRequest<F>),
    /// The current delay passed while waiting for a request.
    DelayElapsed,
    /// The timeout handed out by the last step has finished running.
    TimeoutFinished,
    /// The request channel was closed: nobody can send requests any more.
    ChannelClosed,
}

/// What the scheduler task has to do next.
pub enum SchedulerAction<F> {
    /// Run this future to completion, then report `TimeoutFinished`.
    RunTimeout(F),
    /// Wait for the next request, with no deadline.
    WaitForRequest,
    /// Wait for the next request for at most this many nanoseconds, then report `DelayElapsed`.
    WaitForRequestOrDelay(u128),
    /// Stop the scheduler task.
    Stop,
}

/// The abstract state of a scheduler task.
pub struct SchedulerModel<F> {
    /// The pending timeouts, each identifier mapped to the future it runs.
    pub pending: Map<ScheduledTimeoutIdentifier, F>,
    /// The delay that the scheduler waits for the earliest pending timeout, if it waits for one.
    pub cur_delay: Option<u128>,
    /// The minimum delay of a timeout: a timeout due sooner than this runs at once.
    pub min_timeout_delay: u128,
}

/// The invariant of every reachable abstract state: finitely many timeouts are pending, and the
/// scheduler only waits for a delay while some timeout is pending.
pub open spec fn model_inv<F>(s: SchedulerModel<F>) -> bool {
    &&& s.pending.dom().finite()
    &&& s.cur_delay is Some ==> !s.pending.dom().is_empty()
}

/// What the scheduler does while it is not running a timeout: wait for a request, with the
/// current delay as a deadline if there is one.
pub open spec fn waiting_action<F>(cur_delay: Option<u128>) -> SchedulerAction<F> {
    match cur_delay {
        Some(d) => SchedulerAction::WaitForRequestOrDelay(d),
        None => SchedulerAction::WaitForRequest,
    }
}

/// The pending timeouts after a request is applied to them.
pub open spec fn apply_request<F>(
    pending: Map<ScheduledTimeoutIdentifier, F>,
    request: SchedulerTaskRequest<F>,
) -> Map<ScheduledTimeoutIdentifier, F> {
    match request {
        SchedulerTaskRequest::ScheduleTimeout { identifier, boxed_future } => pending.insert(
            identifier,
            boxed_future,
        ),
        SchedulerTaskRequest::CancelTimeout(token) => pending.remove(token.identifier()),
    }
}

/// Whether a request changes the pending timeouts: a scheduled timeout always does, a
/// cancellation only when its timeout is still pending.
pub open spec fn request_changes_pending<F>(
    pending: Map<ScheduledTimeoutIdentifier, F>,
    request: SchedulerTaskRequest<F>,
) -> bool {
    match request {
        SchedulerTaskRequest::ScheduleTimeout { .. } => true,
        SchedulerTaskRequest::CancelTimeout(token) => pending.contains_key(token.identifier()),
    }
}

/// One round of updating the current delay at the point in time `now`: with no pending timeout
/// there is nothing to wait for; the earliest pending timeout runs at once if it is due before
/// `now + early_by`; otherwise the scheduler waits until its point in time.
pub open spec fn settle_within<F>(
    pending: Map<ScheduledTimeoutIdentifier, F>,
    min_timeout_delay: u128,
    early_by: u128,
    now: u128,
) -> (SchedulerModel<F>, SchedulerAction<F>) {
    if pending.dom().is_empty() {
        (
            SchedulerModel { pending, cur_delay: None, min_timeout_delay },
            SchedulerAction::WaitForRequest,
        )
    } else {
        let first = earliest(pending);
        if first.run_at < now + early_by {
            (
                SchedulerModel { pending: pending.remove(first), cur_delay: None, min_timeout_delay },
                SchedulerAction::RunTimeout(pending[first]),
            )
        } else {
            let delay = (first.run_at - now) as u128;
            (
                SchedulerModel { pending, cur_delay: Some(delay), min_timeout_delay },
                SchedulerAction::WaitForRequestOrDelay(delay),
            )
        }
    }
}

/// Updating the current delay after the pending timeouts changed: a timeout due within the
/// minimum delay runs at once.
pub open spec fn settle<F>(
    pending: Map<ScheduledTimeoutIdentifier, F>,
    min_timeout_delay: u128,
    now: u128,
) -> (SchedulerModel<F>, SchedulerAction<F>) {
    settle_within(pending, min_timeout_delay, min_timeout_delay, now)
}

/// Going on waiting after a request that changed nothing: the scheduler keeps waiting for the
/// point in time of the earliest timeout, and only hands it out if that point has already passed.
pub open spec fn keep_waiting<F>(s: SchedulerModel<F>, now: u128) -> (
    SchedulerModel<F>,
    SchedulerAction<F>,
) {
    settle_within(s.pending, s.min_timeout_delay, 0, now)
}

/// One step of the scheduler task: the state and action that follow `event` at the point in
/// time `now`.
pub open spec fn step_spec<F>(s: SchedulerModel<F>, event: SchedulerEvent<F>, now: u128) -> (
    SchedulerModel<F>,
    SchedulerAction<F>,
) {
    match event {
        SchedulerEvent::RequestReceived(request) => {
            if request_changes_pending(s.pending, request) {
                settle(apply_request(s.pending, request), s.min_timeout_delay, now)
            } else {
                keep_waiting(s, now)
            }
        },
        SchedulerEvent::DelayElapsed => {
            let first = earliest(s.pending);
            (
                SchedulerModel {
                    pending: s.pending.remove(first),
                    cur_delay: None,
                    min_timeout_delay: s.min_timeout_delay,
                },
                SchedulerAction::RunTimeout(s.pending[first]),
            )
        },
        SchedulerEvent::TimeoutFinished => settle(s.pending, s.min_timeout_delay, now),
        SchedulerEvent::ChannelClosed => (s, SchedulerAction::Stop),
    }
}

/// The state of the scheduler task: the pending timeouts, ordered by the point in time at which
/// they should run, and the delay that the scheduler currently waits.
pub struct SchedulerTask<F> {
    /// The scheduled timeouts, each identifier with its future, in strictly ascending order of
    /// identifiers.
    scheduled_timeouts: Vec<(ScheduledTimeoutIdentifier, F)>,
    /// The current delay that the scheduler should wait. This is the delay of the timeout which
    /// will be first to finish, if the scheduler waits for one.
    cur_delay: Option<u128>,
    /// The minimum delay of a timeout. Any timeout with a delay smaller than this is executed
    /// immediately.
    min_timeout_delay: u128,
}

impl<F> View for SchedulerTask<F> {
    type V = SchedulerModel<F>;

    closed spec fn view(&self) -> SchedulerModel<F> {
        SchedulerModel {
            pending: entries_map(self.scheduled_timeouts@),
            cur_delay: self.cur_delay,
            min_timeout_delay: self.min_timeout_delay,
        }
    }
}

impl<F> SchedulerTask<F> {
    /// The scheduled timeouts are kept in strictly ascending order of identifiers.
    pub closed spec fn wf(&self) -> bool {
        strictly_ascending(self.scheduled_timeouts@)
    }

    /// The invariant that every step keeps.
    pub open spec fn inv(&self) -> bool {
        &&& self.wf()
        &&& model_inv(self@)
    }

    proof fn lemma_inv_from_wf(&self)
        requires
            self.wf(),
            self.cur_delay is Some ==> self.scheduled_timeouts@.len() > 0,
        ensures
            self.inv(),
    {
        lemma_entries_map_finite(self.scheduled_timeouts@);
    }

    /// Creates the state of a new scheduler task, with no pending timeout.
    ///
    /// The `min_timeout_delay` parameter is the minimum delay to wait for a timeout, in
    /// nanoseconds. Any timeout with a delay smaller than this will be executed immediately.
    pub fn new(min_timeout_delay: u128) -> (task: Self)
        ensures
            task.inv(),
            task@.pending == Map::<ScheduledTimeoutIdentifier, F>::empty(),
            task@.cur_delay is None,
            task@.min_timeout_delay == min_timeout_delay,
    {
        let task = SchedulerTask { scheduled_timeouts: Vec::new(), cur_delay: None, min_timeout_delay };
        proof {
            task.lemma_inv_from_wf();
            assert(entries_map(task.scheduled_timeouts@) =~= Map::<
                ScheduledTimeoutIdentifier,
                F,
            >::empty());
        }
        task
    }

    /// The position of the first scheduled timeout that does not come before `identifier`.
    fn position_of(&self, identifier: &ScheduledTimeoutIdentifier) -> (p: usize)
        requires
            self.wf(),
        ensures
            p <= self.scheduled_timeouts@.len(),
            forall|j: int| 0 <= j < p ==> (#[trigger] self.scheduled_timeouts@[j]).0.before(*identifier),
            forall|j: int|
                p <= j < self.scheduled_timeouts@.len() ==> !(#[trigger] self.scheduled_timeouts@[j]).0.before(
                    *identifier,
                ),
    {
        let mut p: usize = 0;
        while p < self.scheduled_timeouts.len()
            invariant
                self.wf(),
                p <= self.scheduled_timeouts@.len(),
                forall|j: int| 0 <= j < p ==> (#[trigger] self.scheduled_timeouts@[j]).0.before(*identifier),
            decreases self.scheduled_timeouts@.len() - p,
        {
            if !self.scheduled_timeouts[p].0.is_before(identifier) {
                proof {
                    assert forall|j: int| p <= j < self.scheduled_timeouts@.len() implies !(
                    #[trigger] self.scheduled_timeouts@[j]).0.before(*identifier) by {
                        if j > p {
                            assert(self.scheduled_timeouts@[p as int].0.before(
                                self.scheduled_timeouts@[j].0,
                            ));
                        }
                    }
                }
                return p;
            }
            p = p + 1;
        }
        p
    }

    /// Applies a request to the pending timeouts: a scheduled timeout is added (replacing any
    /// timeout with the same identifier) and a cancelled one is removed; cancelling a timeout that
    /// is not pending leaves them as they are. Returns whether the pending timeouts changed.
    fn handle_request(&mut self, request: SchedulerTaskRequest<F>) -> (changed: bool)
        requires
            old(self).wf(),
        ensures
            final(self).wf(),
            changed == request_changes_pending(old(self)@.pending, request),
            !changed ==> final(self)@ == old(self)@,
            final(self)@.pending == apply_request(old(self)@.pending, request),
            final(self)@.cur_delay == old(self)@.cur_delay,
            final(self)@.min_timeout_delay == old(self)@.min_timeout_delay,
    {
        match request {
            SchedulerTaskRequest::ScheduleTimeout { identifier, boxed_future } => {
                let p = self.position_of(&identifier);
                if p < self.scheduled_timeouts.len() && self.scheduled_timeouts[p].0 == identifier {
                    proof {
                        lemma_replace_entry(self.scheduled_timeouts@, p as int, boxed_future);
                    }
                    self.scheduled_timeouts.set(p, (identifier, boxed_future));
                } else {
                    proof {
                        assert forall|j: int| p <= j < self.scheduled_timeouts@.len() implies identifier.before(
                            (#[trigger] self.scheduled_timeouts@[j]).0,
                        ) by {
                            assert(!self.scheduled_timeouts@[j].0.before(identifier));
                            if j > p {
                                assert(self.scheduled_timeouts@[p as int].0.before(
                                    self.scheduled_timeouts@[j].0,
                                ));
                            }
                        }
                        lemma_insert_entry(self.scheduled_timeouts@, p as int, identifier, boxed_future);
                    }
                    self.scheduled_timeouts.insert(p, (identifier, boxed_future));
                }
                true
            },
            SchedulerTaskRequest::CancelTimeout(cancellation_token) => {
                let identifier = cancellation_token.timeout_identifier;
                let p = self.position_of(&identifier);
                if p < self.scheduled_timeouts.len() && self.scheduled_timeouts[p].0 == identifier {
                    proof {
                        lemma_entries_map_at(self.scheduled_timeouts@, p as int);
                        lemma_remove_entry(self.scheduled_timeouts@, p as int);
                    }
                    let _removed = self.scheduled_timeouts.remove(p);
                    true
                } else {
                    proof {
                        let s = self.scheduled_timeouts@;
                        if entries_map(s).contains_key(identifier) {
                            let i = choose|i: int| #[trigger] holds_key_at(s, identifier, i);
                            if i < p {
                                assert(s[i].0.before(identifier));
                            } else if i > p {
                                assert(s[p as int].0.before(s[i].0));
                            }
                        }
                        assert(entries_map(s).remove(identifier) =~= entries_map(s));
                    }
                    false
                }
            },
        }
    }

    /// What the scheduler does while it is not running a timeout: wait for a request, with the
    /// current delay as a deadline if there is one.
    pub fn wait_action(&self) -> (action: SchedulerAction<F>)
        ensures
            action == waiting_action::<F>(self@.cur_delay),
            action matches SchedulerAction::WaitForRequestOrDelay(delay) ==> self@.cur_delay == Some(
                delay,
            ),
            action is WaitForRequest <==> self@.cur_delay is None,
            self@.cur_delay is Some <==> action is WaitForRequestOrDelay,
    {
        match self.cur_delay {
            Some(delay) => SchedulerAction::WaitForRequestOrDelay(delay),
            None => SchedulerAction::WaitForRequest,
        }
    }

    /// Updates the current delay to the delay of the earliest timeout, at the point in time
    /// `now`. If that timeout is due before `now + early_by`, it is removed and handed out to be
    /// run at once; the caller updates the delay again once it has finished.
    fn update_cur_delay(&mut self, now: u128, early_by: u128) -> (action: SchedulerAction<F>)
        requires
            old(self).wf(),
        ensures
            final(self).inv(),
            (final(self)@, action) == settle_within(
                old(self)@.pending,
                old(self)@.min_timeout_delay,
                early_by,
                now,
            ),
    {
        proof {
            lemma_entries_map_finite(self.scheduled_timeouts@);
        }
        if self.scheduled_timeouts.len() == 0 {
            self.cur_delay = None;
            proof {
                self.lemma_inv_from_wf();
            }
            return SchedulerAction::WaitForRequest;
        }
        proof {
            lemma_first_is_earliest(self.scheduled_timeouts@);
        }
        let first = self.scheduled_timeouts[0].0;
        match first.get_delay(now, early_by) {
            Some(delay) => {
                self.cur_delay = Some(delay);
                proof {
                    self.lemma_inv_from_wf();
                }
                SchedulerAction::WaitForRequestOrDelay(delay)
            },
            None => {
                proof {
                    lemma_remove_entry(self.scheduled_timeouts@, 0);
                }
                let (_identifier, boxed_future) = self.scheduled_timeouts.remove(0);
                self.cur_delay = None;
                proof {
                    self.lemma_inv_from_wf();
                }
                SchedulerAction::RunTimeout(boxed_future)
            },
        }
    }

    /// Removes the earliest timeout and hands it out to be run: the current delay has passed.
    fn run_first_timeout(&mut self) -> (action: SchedulerAction<F>)
        requires
            old(self).inv(),
            old(self)@.cur_delay is Some,
        ensures
            final(self).inv(),
            (final(self)@, action) == step_spec(old(self)@, SchedulerEvent::DelayElapsed, 0),
            final(self)@.min_timeout_delay == old(self)@.min_timeout_delay,
    {
        proof {
            lemma_entries_map_finite(self.scheduled_timeouts@);
            lemma_first_is_earliest(self.scheduled_timeouts@);
            lemma_remove_entry(self.scheduled_timeouts@, 0);
        }
        let (_identifier, boxed_future) = self.scheduled_timeouts.remove(0);
        self.cur_delay = None;
        proof {
            self.lemma_inv_from_wf();
        }
        SchedulerAction::RunTimeout(boxed_future)
    }

    /// Performs one step of the scheduler task: takes what happened since the last step, at the
    /// point in time `now`, and returns what the scheduler has to do next.
    ///
    /// A received request that changes the pending timeouts is applied to them and the current
    /// delay is updated, so that the scheduler waits only the time left until the earliest
    /// timeout; a request that changes nothing (such as cancelling a timeout that already ran)
    /// lets the scheduler keep waiting for the same point in time. When the current delay has
    /// passed, the earliest timeout is run; when a timeout has finished running, the current delay
    /// is updated; when the request channel is closed, the scheduler stops.
    pub fn step(&mut self, event: SchedulerEvent<F>, now: u128) -> (action: SchedulerAction<F>)
        requires
            old(self).inv(),
            event is DelayElapsed ==> old(self)@.cur_delay is Some,
        ensures
            final(self).inv(),
            (final(self)@, action) == step_spec(old(self)@, event, now),
            final(self)@.min_timeout_delay == old(self)@.min_timeout_delay,
    {
        match event {
            SchedulerEvent::RequestReceived(request) => {
                if self.handle_request(request) {
                    self.update_cur_delay(now, self.min_timeout_delay)
                } else {
                    self.update_cur_delay(now, 0)
                }
            },
            SchedulerEvent::DelayElapsed => self.run_first_timeout(),
            SchedulerEvent::TimeoutFinished => self.update_cur_delay(now, self.min_timeout_delay),
            SchedulerEvent::ChannelClosed => SchedulerAction::Stop,
        }
    }
}

} // verus!
