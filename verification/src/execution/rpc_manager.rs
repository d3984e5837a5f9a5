//! RPC endpoint health: the circuit breaker that takes failing endpoints out
//! of rotation, the request counters behind each endpoint's success rate,
//! and the selection of endpoints that may take traffic.

use crate::clock::{elapsed_millis, instant_now};
use crate::keys::{parse_pubkey, pubkey_from_text};
use crate::text::{contains_fragment, str_contains};
use std::collections::HashMap;
use std::time::Instant;
use vstd::prelude::*;

pub mod metrics;

verus! {

/// Consecutive failures that trip a closed breaker.
pub const DEFAULT_FAILURE_THRESHOLD: u32 = 5;

/// How long an open breaker blocks its endpoint before allowing a probe.
pub const DEFAULT_COOLDOWN_MS: u64 = 30_000;

/// State of the circuit breaker of an endpoint.
#[derive(Debug, Clone, Copy, PartialEq, Eq, Structural)]
pub enum BreakerState {
    /// Operational.
    Closed,
    /// Tripped, temporarily disabled.
    Open,
}

/// Encapsulates the circuit breaker logic for a single endpoint.
#[derive(Debug)]
pub struct CircuitBreaker {
    state: BreakerState,
    consecutive_failures: u32,
    tripped_at: Option<Instant>,
    failure_threshold: u32,
    cooldown_ms: u64,
}

/// What a breaker is: its state, its run of failures, the time it last
/// tripped (or had a probe fail), its threshold and its cooldown.
pub struct BreakerView {
    pub state: BreakerState,
    pub consecutive_failures: nat,
    pub tripped_at: Option<Instant>,
    pub failure_threshold: nat,
    pub cooldown_ms: nat,
}

impl BreakerView {
    /// The breaker's invariant: its threshold is positive, it is open
    /// exactly when a trip time is recorded, a closed breaker has seen fewer
    /// failures in a row than its threshold, and an open one at least that
    /// many.
    pub open spec fn wf(self) -> bool {
        &&& self.failure_threshold > 0
        &&& (self.state == BreakerState::Open) == (self.tripped_at is Some)
        &&& self.state == BreakerState::Closed ==> self.consecutive_failures
            < self.failure_threshold
        &&& self.state == BreakerState::Open ==> self.consecutive_failures
            >= self.failure_threshold
    }

    /// The breaker after a successful request.
    pub open spec fn after_success(self) -> BreakerView {
        BreakerView {
            state: BreakerState::Closed,
            consecutive_failures: 0,
            tripped_at: if self.state == BreakerState::Open {
                None
            } else {
                self.tripped_at
            },
            ..self
        }
    }

    /// The breaker after a request that failed at time `now`: a closed
    /// breaker whose streak reaches the threshold trips at `now`, and an
    /// open one (whose probe failed) starts its cooldown again at `now`.
    pub open spec fn after_failure(self, now: Instant) -> BreakerView {
        let failures = self.consecutive_failures + 1;
        if self.state == BreakerState::Open || failures >= self.failure_threshold {
            BreakerView {
                state: BreakerState::Open,
                consecutive_failures: failures,
                tripped_at: Some(now),
                ..self
            }
        } else {
            BreakerView { consecutive_failures: failures, ..self }
        }
    }

    /// The breaker after `n` failed requests in a row, all at time `now`.
    pub open spec fn after_failures(self, n: nat, now: Instant) -> BreakerView
        decreases n,
    {
        if n == 0 {
            self
        } else {
            self.after_failures((n - 1) as nat, now).after_failure(now)
        }
    }

    /// Whether the breaker blocks its endpoint when `elapsed_ms`
    /// milliseconds have passed since it tripped: an open breaker blocks
    /// until its cooldown has passed, then lets a probe through.
    pub open spec fn blocks_after(self, elapsed_ms: int) -> bool {
        self.state == BreakerState::Open && !(self.tripped_at is Some && elapsed_ms
            > self.cooldown_ms)
    }
}

impl View for CircuitBreaker {
    type V = BreakerView;

    closed spec fn view(&self) -> BreakerView {
        BreakerView {
            state: self.state,
            consecutive_failures: self.consecutive_failures as nat,
            tripped_at: self.tripped_at,
            failure_threshold: self.failure_threshold as nat,
            cooldown_ms: self.cooldown_ms as nat,
        }
    }
}

impl Default for CircuitBreaker {
    /// A closed breaker that trips after five failures in a row and cools
    /// down for thirty seconds.
    fn default() -> (b: Self)
        ensures
            b@ == (BreakerView {
                state: BreakerState::Closed,
                consecutive_failures: 0,
                tripped_at: None,
                failure_threshold: DEFAULT_FAILURE_THRESHOLD as nat,
                cooldown_ms: DEFAULT_COOLDOWN_MS as nat,
            }),
            b@.wf(),
    {
        CircuitBreaker {
            state: BreakerState::Closed,
            consecutive_failures: 0,
            tripped_at: None,
            failure_threshold: DEFAULT_FAILURE_THRESHOLD,
            cooldown_ms: DEFAULT_COOLDOWN_MS,
        }
    }
}

impl CircuitBreaker {
    /// Records a successful request: the failure streak ends and an open
    /// breaker closes.
    pub fn record_success(&mut self)
        requires
            old(self)@.wf(),
        ensures
            final(self)@ == old(self)@.after_success(),
            final(self)@.wf(),
    {
        self.consecutive_failures = 0;
        if self.state == BreakerState::Open {
            self.state = BreakerState::Closed;
            self.tripped_at = None;
        }
    }

    /// Records a request that failed at time `now`: the streak grows, a
    /// closed breaker whose streak reaches the threshold trips, and an open
    /// breaker (a failed probe) restarts its cooldown.
    pub fn record_failure_at(&mut self, now: Instant)
        requires
            old(self)@.wf(),
            old(self)@.consecutive_failures < u32::MAX,
        ensures
            final(self)@ == old(self)@.after_failure(now),
            final(self)@.wf(),
    {
        self.consecutive_failures = self.consecutive_failures + 1;
        if self.state == BreakerState::Open || self.consecutive_failures >= self.failure_threshold {
            self.state = BreakerState::Open;
            self.tripped_at = Some(now);
        }
    }

    /// Records a failed request, as `record_failure_at` does at the time
    /// read on the clock.
    pub fn record_failure(&mut self)
        requires
            old(self)@.wf(),
            old(self)@.consecutive_failures < u32::MAX,
        ensures
            exists|now: Instant| final(self)@ == #[trigger] old(self)@.after_failure(now),
            final(self)@.wf(),
    {
        let now = instant_now();
        self.record_failure_at(now);
    }

    /// The breaker's state.
    pub fn state(&self) -> (state: BreakerState)
        ensures
            state == self@.state,
    {
        self.state
    }

    /// The length of the current run of failures.
    pub fn consecutive_failures(&self) -> (failures: u32)
        ensures
            failures == self@.consecutive_failures,
    {
        self.consecutive_failures
    }

    /// Whether the breaker blocks its endpoint, given the milliseconds
    /// that have passed since it tripped.
    pub fn is_open_after(&self, elapsed_ms: u128) -> (open: bool)
        ensures
            open == self@.blocks_after(elapsed_ms as int),
    {
        if self.state == BreakerState::Open {
            if self.tripped_at.is_some() && elapsed_ms > self.cooldown_ms as u128 {
                return false;
            }
            return true;
        }
        false
    }

    /// The milliseconds since the breaker tripped, read on the clock, or 0
    /// where it has not tripped.
    fn elapsed_since_trip(&self) -> (ms: u128)
        ensures
            self@.tripped_at is None ==> ms == 0,
    {
        match &self.tripped_at {
            Some(t) => elapsed_millis(t),
            None => 0,
        }
    }

    /// Whether the breaker blocks its endpoint now: as `is_open_after` with
    /// the time since the trip read on the clock. A closed breaker never
    /// blocks; an open one blocks until its cooldown has passed.
    pub fn is_open(&mut self) -> (open: bool)
        ensures
            *final(self) == *old(self),
            exists|elapsed_ms: u128| open == #[trigger] old(self)@.blocks_after(elapsed_ms as int),
            open ==> old(self)@.state == BreakerState::Open,
            old(self)@.state == BreakerState::Open && old(self)@.tripped_at is None ==> open,
    {
        let elapsed = self.elapsed_since_trip();
        self.is_open_after(elapsed)
    }
}

/// A closed breaker trips exactly when its run of consecutive failures
/// reaches the threshold, and its invariant holds along the way.
pub proof fn law_breaker_trips_at_threshold(v: BreakerView, n: nat, now: Instant)
    requires
        v.wf(),
        v.state == BreakerState::Closed,
    ensures
        v.after_failures(n, now).wf(),
        v.after_failures(n, now).consecutive_failures == v.consecutive_failures + n,
        v.after_failures(n, now).failure_threshold == v.failure_threshold,
        v.after_failures(n, now).cooldown_ms == v.cooldown_ms,
        (v.after_failures(n, now).state == BreakerState::Open) <==> (v.consecutive_failures + n
            >= v.failure_threshold),
    decreases n,
{
    if n > 0 {
        law_breaker_trips_at_threshold(v, (n - 1) as nat, now);
        let prev = v.after_failures((n - 1) as nat, now);
        assert(v.after_failures(n, now) == prev.after_failure(now));
    }
}

/// A success always closes the breaker and clears its failure streak, and
/// a closed breaker never blocks its endpoint.
pub proof fn law_success_closes_breaker(v: BreakerView, elapsed_ms: int)
    requires
        v.wf(),
    ensures
        v.after_success().wf(),
        v.after_success().state == BreakerState::Closed,
        v.after_success().consecutive_failures == 0,
        !v.after_success().blocks_after(elapsed_ms),
{
}

/// An open breaker blocks its endpoint for its whole cooldown.
pub proof fn law_open_breaker_blocks_during_cooldown(v: BreakerView, elapsed_ms: int)
    requires
        v.wf(),
        v.state == BreakerState::Open,
        elapsed_ms <= v.cooldown_ms,
    ensures
        v.blocks_after(elapsed_ms),
{
}

/// A probe that fails on an open breaker restarts its cooldown: the
/// breaker stays open, its trip time becomes the time of the failure, and
/// it blocks its endpoint for a whole cooldown from then.
pub proof fn law_failed_probe_restarts_cooldown(v: BreakerView, now: Instant, elapsed_ms: int)
    requires
        v.wf(),
        v.state == BreakerState::Open,
        elapsed_ms <= v.cooldown_ms,
    ensures
        v.after_failure(now).wf(),
        v.after_failure(now).state == BreakerState::Open,
        v.after_failure(now).tripped_at == Some(now),
        v.after_failure(now).blocks_after(elapsed_ms),
{
}

/// Why endpoint selection failed.
#[derive(Debug, Clone, Copy, PartialEq, Eq, Structural)]
pub enum RpcError {
    /// Every endpoint's breaker is blocking it.
    NoEndpointsAvailable,
}

/// The health record of one endpoint: its breaker and its request counts.
#[derive(Debug)]
pub struct EndpointHealth {
    pub breaker: CircuitBreaker,
    pub counts: RequestCounts,
}

impl EndpointHealth {
    /// The invariant: both parts are well formed.
    pub open spec fn wf(&self) -> bool {
        self.breaker@.wf() && self.counts.wf()
    }

    /// A healthy record: closed breaker, no request counted.
    pub fn new() -> (h: Self)
        ensures
            h.wf(),
            h.breaker@.state == BreakerState::Closed,
            h.breaker@.consecutive_failures == 0,
            h.counts.total_requests == 0,
            h.counts.successes == 0,
    {
        EndpointHealth { breaker: CircuitBreaker::default(), counts: RequestCounts::new() }
    }

    /// Records the outcome of one health check in both the counts and the
    /// breaker.
    pub fn record_health_check(&mut self, success: bool)
        requires
            old(self).wf(),
            old(self).counts.total_requests < u64::MAX,
            old(self).breaker@.consecutive_failures < u32::MAX,
        ensures
            final(self).wf(),
            final(self).counts.total_requests == old(self).counts.total_requests + 1,
            final(self).counts.successes == old(self).counts.successes + if success {
                1int
            } else {
                0int
            },
            success ==> final(self).breaker@ == old(self).breaker@.after_success(),
            !success ==> exists|now: Instant|
                final(self).breaker@ == #[trigger] old(self).breaker@.after_failure(now),
    {
        self.counts.record(success);
        if success {
            self.breaker.record_success();
        } else {
            self.breaker.record_failure();
        }
    }
}

/// The endpoints among the first `n` whose breaker lets traffic through,
/// given for each endpoint the milliseconds since its breaker tripped, in
/// endpoint order.
pub open spec fn usable_endpoints(endpoints: Seq<EndpointHealth>, elapsed_ms: Seq<u128>, n: nat) -> Seq<
    usize,
>
    decreases n,
{
    if n == 0 {
        Seq::empty()
    } else {
        let rest = usable_endpoints(endpoints, elapsed_ms, (n - 1) as nat);
        if !endpoints[n - 1].breaker@.blocks_after(elapsed_ms[n - 1] as int) {
            rest.push((n - 1) as usize)
        } else {
            rest
        }
    }
}

/// Whether a selection result reports the usable endpoints `usable`: the
/// endpoints themselves when there are any, an error otherwise.
pub open spec fn selection_reports(usable: Seq<usize>, r: Result<Vec<usize>, RpcError>) -> bool {
    match r {
        Ok(selected) => usable.len() > 0 && selected@ == usable,
        Err(e) => usable.len() == 0 && e == RpcError::NoEndpointsAvailable,
    }
}

/// The usable endpoints are exactly those among the first `n` whose
/// breaker does not block, in increasing order.
pub proof fn lemma_usable_endpoints(endpoints: Seq<EndpointHealth>, elapsed_ms: Seq<u128>, n: nat)
    requires
        n <= usize::MAX + 1,
    ensures
        forall|j: int|
            0 <= j < usable_endpoints(endpoints, elapsed_ms, n).len() ==> (
            #[trigger] usable_endpoints(endpoints, elapsed_ms, n)[j]) < n,
        forall|j: int, l: int|
            0 <= j < l < usable_endpoints(endpoints, elapsed_ms, n).len() ==> #[trigger] usable_endpoints(
                endpoints,
                elapsed_ms,
                n,
            )[j] < #[trigger] usable_endpoints(endpoints, elapsed_ms, n)[l],
        forall|k: int|
            0 <= k < n ==> (usable_endpoints(endpoints, elapsed_ms, n).contains(k as usize) <==> !(
            #[trigger] endpoints[k]).breaker@.blocks_after(elapsed_ms[k] as int)),
    decreases n,
{
    if n > 0 {
        let m = (n - 1) as nat;
        lemma_usable_endpoints(endpoints, elapsed_ms, m);
        let rest = usable_endpoints(endpoints, elapsed_ms, m);
        let all = usable_endpoints(endpoints, elapsed_ms, n);
        if !endpoints[m as int].breaker@.blocks_after(elapsed_ms[m as int] as int) {
            assert(all == rest.push(m as usize));
            assert forall|j: int| 0 <= j < all.len() implies (#[trigger] all[j]) < n by {
                if j < rest.len() {
                    assert(all[j] == rest[j]);
                }
            }
            assert forall|j: int, l: int| 0 <= j < l < all.len() implies #[trigger] all[j]
                < #[trigger] all[l] by {
                assert(all[j] == rest[j]);
                if l < rest.len() {
                    assert(all[l] == rest[l]);
                }
            }
            assert forall|k: int| 0 <= k < n implies (all.contains(k as usize) <==> !(
            #[trigger] endpoints[k]).breaker@.blocks_after(elapsed_ms[k] as int)) by {
                if k < m {
                    if rest.contains(k as usize) {
                        let w = choose|w: int| 0 <= w < rest.len() && rest[w] == k as usize;
                        assert(all[w] == k as usize);
                    }
                    if all.contains(k as usize) {
                        let w = choose|w: int| 0 <= w < all.len() && all[w] == k as usize;
                        if w == rest.len() {
                            assert(all[w] == m as usize);
                        } else {
                            assert(rest[w] == k as usize);
                        }
                    }
                } else {
                    assert(all[rest.len() as int] == m as usize);
                }
            }
        } else {
            assert(all == rest);
            assert forall|k: int| 0 <= k < n implies (all.contains(k as usize) <==> !(
            #[trigger] endpoints[k]).breaker@.blocks_after(elapsed_ms[k] as int)) by {
                if k == m && rest.contains(k as usize) {
                    let w = choose|w: int| 0 <= w < rest.len() && rest[w] == k as usize;
                    assert(rest[w] < m);
                }
            }
        }
    }
}

/// An endpoint is selected exactly when its breaker is closed, or open
/// with a trip recorded more than its cooldown ago (a half-open probe); a
/// longer wait never deselects an endpoint, and selection fails only when
/// every endpoint is blocked.
pub proof fn law_selection_lets_probes_through_after_cooldown(
    endpoints: Seq<EndpointHealth>,
    elapsed_ms: Seq<u128>,
    longer_ms: Seq<u128>,
    i: int,
)
    requires
        endpoints.len() <= usize::MAX + 1,
        elapsed_ms.len() == endpoints.len(),
        longer_ms.len() == endpoints.len(),
        forall|j: int| 0 <= j < endpoints.len() ==> elapsed_ms[j] <= #[trigger] longer_ms[j],
        0 <= i < endpoints.len(),
    ensures
        ({
            let b = endpoints[i].breaker@;
            let passes = b.state == BreakerState::Closed || (b.tripped_at is Some
                && elapsed_ms[i] > b.cooldown_ms);
            &&& usable_endpoints(endpoints, elapsed_ms, endpoints.len()).contains(i as usize)
                <==> passes
            &&& passes ==> usable_endpoints(endpoints, longer_ms, endpoints.len()).contains(
                i as usize,
            )
            &&& passes ==> usable_endpoints(endpoints, elapsed_ms, endpoints.len()).len() > 0
        }),
{
    lemma_usable_endpoints(endpoints, elapsed_ms, endpoints.len());
    lemma_usable_endpoints(endpoints, longer_ms, endpoints.len());
    assert(endpoints[i] == endpoints[i]);
}

/// Selects the endpoints whose breaker lets traffic through, given for
/// each endpoint the milliseconds since its breaker tripped: in endpoint
/// order, every endpoint whose breaker does not block. Fails exactly when
/// there is none.
pub fn available_endpoints_after(endpoints: &Vec<EndpointHealth>, elapsed_ms: &Vec<u128>) -> (r:
    Result<Vec<usize>, RpcError>)
    requires
        elapsed_ms@.len() == endpoints@.len(),
    ensures
        selection_reports(usable_endpoints(endpoints@, elapsed_ms@, endpoints@.len()), r),
        forall|i: int|
            0 <= i < endpoints@.len() ==> (usable_endpoints(
                endpoints@,
                elapsed_ms@,
                endpoints@.len(),
            ).contains(i as usize) <==> !(#[trigger] endpoints@[i]).breaker@.blocks_after(
                elapsed_ms@[i] as int,
            )),
{
    let n = endpoints.len();
    let mut selected: Vec<usize> = Vec::new();
    let mut i: usize = 0;
    while i < n
        invariant
            n == endpoints@.len(),
            n == elapsed_ms@.len(),
            i <= n,
            selected@ == usable_endpoints(endpoints@, elapsed_ms@, i as nat),
        decreases n - i,
    {
        if !endpoints[i].breaker.is_open_after(elapsed_ms[i]) {
            selected.push(i);
        }
        i = i + 1;
    }
    proof {
        lemma_usable_endpoints(endpoints@, elapsed_ms@, n as nat);
    }
    if selected.len() == 0 {
        Err(RpcError::NoEndpointsAvailable)
    } else {
        Ok(selected)
    }
}

/// Selects the endpoints whose breaker lets traffic through, in endpoint
/// order, as `available_endpoints_after` does with the time since each
/// breaker tripped read on the clock (0 for a breaker that has not
/// tripped). Every endpoint with a closed breaker is selected. Fails
/// exactly when no endpoint is selected.
pub fn available_endpoints(endpoints: &mut Vec<EndpointHealth>) -> (r: Result<Vec<usize>, RpcError>)
    ensures
        final(endpoints)@ == old(endpoints)@,
        exists|elapsed_ms: Seq<u128>|
            #![trigger usable_endpoints(old(endpoints)@, elapsed_ms, old(endpoints)@.len())]
            {
                &&& elapsed_ms.len() == old(endpoints)@.len()
                &&& forall|i: int|
                    0 <= i < elapsed_ms.len() && (#[trigger] old(endpoints)@[i]).breaker@.tripped_at is None
                        ==> elapsed_ms[i] == 0
                &&& selection_reports(
                    usable_endpoints(old(endpoints)@, elapsed_ms, old(endpoints)@.len()),
                    r,
                )
            },
        r is Err ==> forall|i: int|
            0 <= i < old(endpoints)@.len() ==> #[trigger] old(endpoints)@[i].breaker@.state
                == BreakerState::Open,
        r matches Ok(selected) ==> {
            &&& forall|j: int|
                0 <= j < selected@.len() ==> #[trigger] selected@[j] < old(endpoints)@.len()
            &&& forall|j: int, l: int|
                0 <= j < l < selected@.len() ==> #[trigger] selected@[j] < #[trigger] selected@[l]
            &&& forall|i: int|
                0 <= i < old(endpoints)@.len() ==> (#[trigger] old(endpoints)@[i].breaker@.state
                    == BreakerState::Closed ==> selected@.contains(i as usize))
        },
{
    let n = endpoints.len();
    let mut readings: Vec<u128> = Vec::new();
    let mut i: usize = 0;
    while i < n
        invariant
            n == endpoints@.len(),
            endpoints@ == old(endpoints)@,
            i <= n,
            readings@.len() == i,
            forall|k: int|
                0 <= k < i && (#[trigger] endpoints@[k]).breaker@.tripped_at is None ==> readings@[k]
                    == 0,
        decreases n - i,
    {
        let reading = endpoints[i].breaker.elapsed_since_trip();
        readings.push(reading);
        i = i + 1;
    }
    let r = available_endpoints_after(endpoints, &readings);
    proof {
        let u = usable_endpoints(old(endpoints)@, readings@, n as nat);
        lemma_usable_endpoints(old(endpoints)@, readings@, n as nat);
        assert forall|k: int|
            0 <= k < n implies (#[trigger] old(endpoints)@[k]).breaker@.state
                == BreakerState::Closed ==> u.contains(k as usize) by {
            assert(u.contains(k as usize) <==> !old(endpoints)@[k].breaker@.blocks_after(
                readings@[k] as int,
            ));
        }
        if r is Err {
            assert forall|k: int| 0 <= k < n implies #[trigger] old(endpoints)@[k].breaker@.state
                == BreakerState::Open by {
                if old(endpoints)@[k].breaker@.state == BreakerState::Closed {
                    assert(u.contains(k as usize));
                }
            }
        }
    }
    r
}

/// Whether an endpoint may serve a request on its own: its breaker lets
/// traffic through, `elapsed_ms` after tripping, and its counts are healthy.
pub open spec fn serves_alone(endpoint: EndpointHealth, elapsed_ms: u128) -> bool {
    !endpoint.breaker@.blocks_after(elapsed_ms as int) && endpoint.counts.healthy()
}

/// The first of the first `n` endpoints that may serve a request on its
/// own, given for each the milliseconds since its breaker tripped.
pub open spec fn first_serving(endpoints: Seq<EndpointHealth>, elapsed_ms: Seq<u128>, n: nat) -> Option<
    usize,
>
    decreases n,
{
    if n == 0 {
        None
    } else {
        match first_serving(endpoints, elapsed_ms, (n - 1) as nat) {
            Some(j) => Some(j),
            None => if serves_alone(endpoints[n - 1], elapsed_ms[n - 1]) {
                Some((n - 1) as usize)
            } else {
                None
            },
        }
    }
}

/// The first endpoint, in endpoint order, whose breaker lets traffic
/// through and whose counts are healthy, given for each endpoint the
/// milliseconds since its breaker tripped; `None` where there is none.
pub fn first_healthy_endpoint_after(endpoints: &Vec<EndpointHealth>, elapsed_ms: &Vec<u128>) -> (r:
    Option<usize>)
    requires
        elapsed_ms@.len() == endpoints@.len(),
    ensures
        r == first_serving(endpoints@, elapsed_ms@, endpoints@.len()),
{
    let n = endpoints.len();
    let mut i: usize = 0;
    while i < n
        invariant
            n == endpoints@.len(),
            n == elapsed_ms@.len(),
            i <= n,
            first_serving(endpoints@, elapsed_ms@, i as nat) is None,
        decreases n - i,
    {
        if !endpoints[i].breaker.is_open_after(elapsed_ms[i]) && endpoints[i].counts.is_healthy() {
            proof {
                lemma_first_serving_stays(endpoints@, elapsed_ms@, (i + 1) as nat, n as nat);
            }
            return Some(i);
        }
        i = i + 1;
    }
    None
}

/// Once some endpoint serves, looking at more endpoints does not change
/// which comes first.
proof fn lemma_first_serving_stays(endpoints: Seq<EndpointHealth>, elapsed_ms: Seq<u128>, k: nat, n: nat)
    requires
        k <= n,
        first_serving(endpoints, elapsed_ms, k) is Some,
    ensures
        first_serving(endpoints, elapsed_ms, n) == first_serving(endpoints, elapsed_ms, k),
    decreases n - k,
{
    if k < n {
        lemma_first_serving_stays(endpoints, elapsed_ms, k, (n - 1) as nat);
    }
}

/// The first endpoint whose breaker lets traffic through and whose counts
/// are healthy, as `first_healthy_endpoint_after` finds it with the time
/// since each breaker tripped read on the clock (0 for a breaker that has
/// not tripped).
pub fn first_healthy_endpoint(endpoints: &mut Vec<EndpointHealth>) -> (r: Option<usize>)
    ensures
        final(endpoints)@ == old(endpoints)@,
        exists|elapsed_ms: Seq<u128>|
            #![trigger first_serving(old(endpoints)@, elapsed_ms, old(endpoints)@.len())]
            {
                &&& elapsed_ms.len() == old(endpoints)@.len()
                &&& forall|i: int|
                    0 <= i < elapsed_ms.len() && (#[trigger] old(endpoints)@[i]).breaker@.tripped_at is None
                        ==> elapsed_ms[i] == 0
                &&& r == first_serving(old(endpoints)@, elapsed_ms, old(endpoints)@.len())
            },
{
    let n = endpoints.len();
    let mut readings: Vec<u128> = Vec::new();
    let mut i: usize = 0;
    while i < n
        invariant
            n == endpoints@.len(),
            endpoints@ == old(endpoints)@,
            i <= n,
            readings@.len() == i,
            forall|k: int|
                0 <= k < i && (#[trigger] endpoints@[k]).breaker@.tripped_at is None ==> readings@[k]
                    == 0,
        decreases n - i,
    {
        let reading = endpoints[i].breaker.elapsed_since_trip();
        readings.push(reading);
        i = i + 1;
    }
    first_healthy_endpoint_after(endpoints, &readings)
}

/// The region an RPC URL points to, inferred from the provider's name.
pub open spec fn inferred_location(url: Seq<char>) -> Option<Seq<char>> {
    if contains_fragment(url, "helius"@) {
        Some("us-east"@)
    } else if contains_fragment(url, "triton"@) {
        Some("us-west"@)
    } else if contains_fragment(url, "quicknode"@) {
        Some("global"@)
    } else {
        None
    }
}

/// Infers a geographic location from common RPC URL patterns.
pub fn infer_location_from_url(url: &str) -> (location: Option<String>)
    ensures
        match location {
            Some(l) => inferred_location(url@) == Some(l@),
            None => inferred_location(url@) is None,
        },
{
    if str_contains(url, "helius") {
        Some("us-east".to_owned())
    } else if str_contains(url, "triton") {
        Some("us-west".to_owned())
    } else if str_contains(url, "quicknode") {
        Some("global".to_owned())
    } else {
        None
    }
}

/// The map from slot to leader that `slots` of one validator add to `m`,
/// later slots overriding earlier ones.
pub open spec fn with_leader_slots(m: Map<u64, Seq<u8>>, slots: Seq<usize>, key: Seq<u8>) -> Map<
    u64,
    Seq<u8>,
>
    decreases slots.len(),
{
    if slots.len() == 0 {
        m
    } else {
        with_leader_slots(m, slots.drop_last(), key).insert(slots.last() as u64, key)
    }
}

/// The leader schedule built from `(validator, slots)` entries in order:
/// each slot maps to the validator's key; validators whose text is not a
/// public key are skipped.
pub open spec fn leader_schedule(entries: Seq<(Seq<char>, Seq<usize>)>) -> Map<u64, Seq<u8>>
    decreases entries.len(),
{
    if entries.len() == 0 {
        Map::empty()
    } else {
        let prev = leader_schedule(entries.drop_last());
        let (validator, slots) = entries.last();
        match pubkey_from_text(validator) {
            Some(key) => with_leader_slots(prev, slots, key),
            None => prev,
        }
    }
}

/// The views of schedule entries.
pub open spec fn schedule_views(entries: Seq<(String, Vec<usize>)>) -> Seq<(Seq<char>, Seq<usize>)> {
    entries.map_values(|e: (String, Vec<usize>)| (e.0@, e.1@))
}

/// The views of a slot-to-leader map.
pub open spec fn leader_map_view(m: Map<u64, [u8; 32]>) -> Map<u64, Seq<u8>> {
    m.map_values(|k: [u8; 32]| k@)
}

/// Builds the slot-to-leader map from a fetched leader schedule, given as
/// `(validator, slots)` entries.
pub fn build_leader_schedule(entries: &Vec<(String, Vec<usize>)>) -> (schedule: HashMap<u64, [u8; 32]>)
    ensures
        leader_map_view(schedule@) == leader_schedule(schedule_views(entries@)),
{
    broadcast use vstd::std_specs::hash::group_hash_axioms;

    let mut schedule: HashMap<u64, [u8; 32]> = HashMap::new();
    let mut e: usize = 0;
    while e < entries.len()
        invariant
            e <= entries@.len(),
            leader_map_view(schedule@) == leader_schedule(schedule_views(entries@).take(e as int)),
        decreases entries@.len() - e,
    {
        let (validator, slots) = &entries[e];
        let ghost prev = schedule_views(entries@).take(e as int);
        assert(schedule_views(entries@).take(e + 1).drop_last() =~= prev);
        assert(schedule_views(entries@).take(e + 1).last() == (validator@, slots@));
        match parse_pubkey(validator.as_str()) {
            Some(key) => {
                let mut s: usize = 0;
                while s < slots.len()
                    invariant
                        s <= slots@.len(),
                        pubkey_from_text(validator@) == Some(key@),
                        leader_map_view(schedule@) == with_leader_slots(
                            leader_schedule(prev),
                            slots@.take(s as int),
                            key@,
                        ),
                    decreases slots@.len() - s,
                {
                    let slot = slots[s];
                    assert(slots@.take(s + 1).drop_last() =~= slots@.take(s as int));
                    schedule.insert(slot as u64, key);
                    assert(leader_map_view(schedule@) =~= with_leader_slots(
                        leader_schedule(prev),
                        slots@.take(s as int),
                        key@,
                    ).insert(slot as u64, key@));
                    s = s + 1;
                }
                assert(slots@.take(slots@.len() as int) =~= slots@);
            },
            None => {},
        }
        e = e + 1;
    }
    assert(schedule_views(entries@).take(entries@.len() as int) =~= schedule_views(entries@));
    schedule
}

/// Whether entry `e` of a schedule names a validator that decodes to a key
/// and lists `slot` among its slots.
pub open spec fn entry_lists_slot(entries: Seq<(Seq<char>, Seq<usize>)>, e: int, slot: u64) -> bool {
    &&& 0 <= e < entries.len()
    &&& pubkey_from_text(entries[e].0) is Some
    &&& exists|j: int| 0 <= j < entries[e].1.len() && #[trigger] entries[e].1[j] as u64 == slot
}

/// Adding slots for a key: a slot is mapped afterwards exactly when it was
/// before or is among the slots, and a slot among them maps to the key.
proof fn lemma_with_leader_slots(m: Map<u64, Seq<u8>>, slots: Seq<usize>, key: Seq<u8>, slot: u64)
    ensures
        with_leader_slots(m, slots, key).contains_key(slot) <==> (m.contains_key(slot) || exists|
            j: int,
        | 0 <= j < slots.len() && #[trigger] slots[j] as u64 == slot),
        (exists|j: int| 0 <= j < slots.len() && #[trigger] slots[j] as u64 == slot) ==> with_leader_slots(
            m,
            slots,
            key,
        )[slot] == key,
        !(exists|j: int| 0 <= j < slots.len() && #[trigger] slots[j] as u64 == slot) ==> with_leader_slots(
            m,
            slots,
            key,
        )[slot] == m[slot],
    decreases slots.len(),
{
    if slots.len() > 0 {
        let rest = slots.drop_last();
        lemma_with_leader_slots(m, rest, key, slot);
        if exists|j: int| 0 <= j < rest.len() && #[trigger] rest[j] as u64 == slot {
            let j = choose|j: int| 0 <= j < rest.len() && #[trigger] rest[j] as u64 == slot;
            assert(slots[j] == rest[j]);
        }
        if exists|j: int| 0 <= j < slots.len() && #[trigger] slots[j] as u64 == slot {
            let j = choose|j: int| 0 <= j < slots.len() && #[trigger] slots[j] as u64 == slot;
            if j < rest.len() {
                assert(rest[j] == slots[j]);
            }
        }
        assert(slots[slots.len() - 1] == slots.last());
    }
}

/// Every slot listed for a validator whose text decodes to a key has a
/// leader, and no other slot has one: the schedule's slots are exactly
/// those of the decodable entries, all of their slots, whatever their
/// number.
pub proof fn law_schedule_covers_listed_slots(entries: Seq<(Seq<char>, Seq<usize>)>, slot: u64)
    ensures
        leader_schedule(entries).contains_key(slot) <==> exists|e: int|
            #[trigger] entry_lists_slot(entries, e, slot),
    decreases entries.len(),
{
    if entries.len() > 0 {
        let rest = entries.drop_last();
        let last = entries.len() - 1;
        law_schedule_covers_listed_slots(rest, slot);
        let prev = leader_schedule(rest);
        let (validator, slots) = entries.last();
        assert(entries[last] == entries.last());
        let in_rest = exists|e: int| #[trigger] entry_lists_slot(rest, e, slot);
        let in_all = exists|e: int| #[trigger] entry_lists_slot(entries, e, slot);
        let in_last = exists|j: int| 0 <= j < slots.len() && #[trigger] slots[j] as u64 == slot;
        if in_rest {
            let e = choose|e: int| #[trigger] entry_lists_slot(rest, e, slot);
            assert(entries[e] == rest[e]);
            assert(entry_lists_slot(entries, e, slot));
        }
        if in_all {
            let e = choose|e: int| #[trigger] entry_lists_slot(entries, e, slot);
            if e < last {
                assert(entries[e] == rest[e]);
                assert(entry_lists_slot(rest, e, slot));
            } else {
                assert(pubkey_from_text(validator) is Some);
                let j = choose|j: int|
                    0 <= j < entries[e].1.len() && #[trigger] entries[e].1[j] as u64 == slot;
                assert(slots[j] as u64 == slot);
            }
        }
        match pubkey_from_text(validator) {
            Some(key) => {
                lemma_with_leader_slots(prev, slots, key, slot);
                if in_last {
                    let j = choose|j: int| 0 <= j < slots.len() && #[trigger] slots[j] as u64 == slot;
                    assert(entries[last].1[j] as u64 == slot);
                    assert(entry_lists_slot(entries, last, slot));
                }
                assert(leader_schedule(entries) == with_leader_slots(prev, slots, key));
            },
            None => {
                assert(leader_schedule(entries) == prev);
                assert(!entry_lists_slot(entries, last, slot));
            },
        }
    }
}

/// A slot's leader is the validator of the last decodable entry that lists
/// the slot: later entries override earlier ones.
pub proof fn law_last_listing_entry_leads(entries: Seq<(Seq<char>, Seq<usize>)>, slot: u64, e: int)
    requires
        entry_lists_slot(entries, e, slot),
        forall|f: int| e < f < entries.len() ==> !#[trigger] entry_lists_slot(entries, f, slot),
    ensures
        leader_schedule(entries).contains_key(slot),
        leader_schedule(entries)[slot] == pubkey_from_text(entries[e].0)->0,
    decreases entries.len(),
{
    law_schedule_covers_listed_slots(entries, slot);
    let rest = entries.drop_last();
    let last = entries.len() - 1;
    let prev = leader_schedule(rest);
    let (validator, slots) = entries.last();
    assert(entries[last] == entries.last());
    if let Some(key) = pubkey_from_text(validator) {
        lemma_with_leader_slots(prev, slots, key, slot);
    }
    if e < last {
        assert(entries[e] == rest[e]);
        assert(entry_lists_slot(rest, e, slot));
        assert forall|f: int| e < f < rest.len() implies !#[trigger] entry_lists_slot(
            rest,
            f,
            slot,
        ) by {
            assert(entries[f] == rest[f]);
            if entry_lists_slot(rest, f, slot) {
                assert(entry_lists_slot(entries, f, slot));
            }
        }
        law_last_listing_entry_leads(rest, slot, e);
        assert(!entry_lists_slot(entries, last, slot));
    }
}

/// Counts of the requests sent to an endpoint and of those that succeeded.
#[derive(Debug, Clone, Copy, PartialEq, Eq, Structural)]
pub struct RequestCounts {
    pub total_requests: u64,
    pub successes: u64,
}

impl RequestCounts {
    /// No request recorded yet.
    pub fn new() -> (c: Self)
        ensures
            c.total_requests == 0,
            c.successes == 0,
    {
        RequestCounts { total_requests: 0, successes: 0 }
    }

    /// The counts' invariant: no more successes than requests.
    pub open spec fn wf(self) -> bool {
        self.successes <= self.total_requests
    }

    /// Whether the endpoint counts as healthy: more than 80% of its
    /// requests succeeded, or none has been made yet.
    pub open spec fn healthy(self) -> bool {
        self.total_requests == 0 || 5 * self.successes > 4 * self.total_requests
    }

    /// Whether the endpoint counts as healthy (`healthy`).
    pub fn is_healthy(&self) -> (healthy: bool)
        ensures
            healthy == self.healthy(),
    {
        self.total_requests == 0 || 5 * (self.successes as u128) > 4 * (self.total_requests as u128)
    }

    /// Records one request and whether it succeeded.
    pub fn record(&mut self, success: bool)
        requires
            old(self).wf(),
            old(self).total_requests < u64::MAX,
        ensures
            final(self).total_requests == old(self).total_requests + 1,
            final(self).successes == old(self).successes + if success { 1int } else { 0int },
            final(self).wf(),
    {
        self.total_requests = self.total_requests + 1;
        if success {
            self.successes = self.successes + 1;
        }
    }
}

} // verus!
