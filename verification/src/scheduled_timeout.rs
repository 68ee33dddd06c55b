use std::cmp::Ordering;
use vstd::prelude::*;

verus! {

/// A unique identifier for a scheduled timeout.
///
/// Points in time are counted in nanoseconds from the origin of the scheduler that owns the
/// timeout. Identifiers are ordered by `run_at`, and two identifiers with the same `run_at` are
/// ordered by `boxed_future_addr`; equality compares both fields.
#[derive(Debug, Clone, Copy, PartialEq, Eq, Structural, Ord)]
pub struct ScheduledTimeoutIdentifier {
    /// When this scheduled timeout should run, in nanoseconds from the scheduler's origin.
    pub run_at: u128,
    /// The memory address of the boxed future which should be executed by this timeout. This is
    /// used to differentiate different timeouts with the same `run_at`.
    pub boxed_future_addr: usize,
}

impl ScheduledTimeoutIdentifier {
    /// The strict order of identifiers: first by `run_at`, then by `boxed_future_addr`.
    pub open spec fn before(self, other: ScheduledTimeoutIdentifier) -> bool {
        ||| self.run_at < other.run_at
        ||| (self.run_at == other.run_at && self.boxed_future_addr < other.boxed_future_addr)
    }

    /// Creates the identifier of a timeout that runs at `run_at` the future stored at
    /// `boxed_future_addr`.
    pub fn new(run_at: u128, boxed_future_addr: usize) -> (id: Self)
        ensures
            id.run_at == run_at,
            id.boxed_future_addr == boxed_future_addr,
    {
        ScheduledTimeoutIdentifier { run_at, boxed_future_addr }
    }

    /// Returns the delay needed to wait, at the point in time `now`, for this scheduled timeout,
    /// if it is not smaller than the minimum delay.
    ///
    /// When `run_at < now + min_timeout_delay` the delay we would have to wait is smaller than
    /// the minimum, and the result is `None`; otherwise it is `Some(run_at - now)`.
    pub fn get_delay(&self, now: u128, min_timeout_delay: u128) -> (delay: Option<u128>)
        ensures
            delay is None <==> self.run_at < now + min_timeout_delay,
            delay matches Some(d) ==> d == self.run_at - now && d >= min_timeout_delay,
    {
        if self.run_at < now || self.run_at - now < min_timeout_delay {
            None
        } else {
            Some(self.run_at - now)
        }
    }

    /// Whether this identifier comes strictly before `other` in the order of identifiers.
    pub fn is_before(&self, other: &Self) -> (r: bool)
        ensures
            r == self.before(*other),
            r <==> (self.run_at < other.run_at || (self.run_at == other.run_at
                && self.boxed_future_addr < other.boxed_future_addr)),
    {
        self.run_at < other.run_at || (self.run_at == other.run_at && self.boxed_future_addr
            < other.boxed_future_addr)
    }
}

impl PartialOrd for ScheduledTimeoutIdentifier {
    fn partial_cmp(&self, other: &Self) -> (r: Option<Ordering>) {
        if self.run_at < other.run_at {
            Some(Ordering::Less)
        } else if self.run_at > other.run_at {
            Some(Ordering::Greater)
        } else if self.boxed_future_addr < other.boxed_future_addr {
            Some(Ordering::Less)
        } else if self.boxed_future_addr > other.boxed_future_addr {
            Some(Ordering::Greater)
        } else {
            Some(Ordering::Equal)
        }
    }
}

impl vstd::std_specs::cmp::PartialOrdSpecImpl for ScheduledTimeoutIdentifier {
    open spec fn obeys_partial_cmp_spec() -> bool {
        true
    }

    open spec fn partial_cmp_spec(&self, other: &Self) -> Option<Ordering> {
        if self.run_at < other.run_at {
            Some(Ordering::Less)
        } else if self.run_at > other.run_at {
            Some(Ordering::Greater)
        } else if self.boxed_future_addr < other.boxed_future_addr {
            Some(Ordering::Less)
        } else if self.boxed_future_addr > other.boxed_future_addr {
            Some(Ordering::Greater)
        } else {
            Some(Ordering::Equal)
        }
    }
}

/// Comparing two identifiers with `partial_cmp` follows the order of identifiers: `Less` exactly
/// when the first comes before the second, `Equal` exactly when they are equal, and `Greater`
/// exactly when the second comes before the first.
pub proof fn law_partial_cmp_follows_order(a: ScheduledTimeoutIdentifier, b: ScheduledTimeoutIdentifier)
    ensures
        vstd::std_specs::cmp::PartialOrdSpec::partial_cmp_spec(&a, &b) == Some(Ordering::Less) <==> a.before(b),
        vstd::std_specs::cmp::PartialOrdSpec::partial_cmp_spec(&a, &b) == Some(Ordering::Equal) <==> a == b,
        vstd::std_specs::cmp::PartialOrdSpec::partial_cmp_spec(&a, &b) == Some(Ordering::Greater) <==> b.before(a),
{
}

/// Two identifiers are equal exactly when both their points in time and their addresses are
/// equal; `==` on identifiers compares exactly this.
pub proof fn law_identifier_equality(a: ScheduledTimeoutIdentifier, b: ScheduledTimeoutIdentifier)
    ensures
        a == b <==> (a.run_at == b.run_at && a.boxed_future_addr == b.boxed_future_addr),
{
}

/// Identifiers are ordered by their fields, point in time first: an identifier comes before
/// another exactly when its point in time is earlier, or the points in time are equal and its
/// address is smaller. This is the order that std gives the pair `(run_at, boxed_future_addr)`,
/// and `partial_cmp` on identifiers agrees with `partial_cmp` on those pairs.
pub proof fn law_identifier_order_follows_fields(
    a: ScheduledTimeoutIdentifier,
    b: ScheduledTimeoutIdentifier,
)
    ensures
        a.before(b) <==> (a.run_at < b.run_at || (a.run_at == b.run_at && a.boxed_future_addr
            < b.boxed_future_addr)),
        a.run_at < b.run_at ==> a.before(b),
        a.run_at == b.run_at ==> (a.before(b) <==> a.boxed_future_addr < b.boxed_future_addr),
        a.before(b) <==> vstd::std_specs::cmp::PartialOrdSpec::partial_cmp_spec(
            &(a.run_at, a.boxed_future_addr),
            &(b.run_at, b.boxed_future_addr),
        ) == Some(Ordering::Less),
        vstd::std_specs::cmp::PartialOrdSpec::partial_cmp_spec(&a, &b)
            == vstd::std_specs::cmp::PartialOrdSpec::partial_cmp_spec(
            &(a.run_at, a.boxed_future_addr),
            &(b.run_at, b.boxed_future_addr),
        ),
{
}

} // verus!
