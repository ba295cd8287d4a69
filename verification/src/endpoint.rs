//! An upstream endpoint of a chain, with what is counted against it.

use crate::health;
use crate::health::Clock;
use crate::health::EndpointHealthStore;
use crate::health::HealthEntry;
use vstd::prelude::*;

verus! {

/// An endpoint to which the requests for a chain can go.
pub struct RpcEndpoint {
    chain_id: String,
    pub url: String,
    failures: u32,
    unavailable_until: Option<u128>,
}

/// An endpoint, for specifications.
pub struct EndpointView {
    pub chain_id: Seq<char>,
    pub url: Seq<char>,
    /// The hard failures since the endpoint last was in good health.
    pub failures: nat,
    /// The instant until which the endpoint rests, if it does.
    pub unavailable_until: Option<nat>,
}

impl EndpointView {
    /// An endpoint against which nothing is counted.
    pub open spec fn fresh(chain_id: Seq<char>, url: Seq<char>) -> EndpointView {
        EndpointView { chain_id, url, failures: 0, unavailable_until: None }
    }

    /// Whether the endpoint is not resting at an instant.
    pub open spec fn healthy_at(self, now: u64) -> bool {
        match self.unavailable_until {
            Some(until) => until <= now,
            None => true,
        }
    }

    /// The endpoint with nothing counted against it.
    pub open spec fn cleared(self) -> EndpointView {
        EndpointView { failures: 0, unavailable_until: None, ..self }
    }

    /// The endpoint once its health was asked for at an instant: a rest that is over is forgotten.
    pub open spec fn checked_at(self, now: u64) -> EndpointView {
        if self.unavailable_until is Some && self.healthy_at(now) {
            self.cleared()
        } else {
            self
        }
    }

    /// The endpoint resting for a number of seconds.
    pub open spec fn resting(self, now: u64, seconds: u64) -> EndpointView {
        EndpointView { unavailable_until: Some(health::instant_after(now, seconds)), ..self }
    }

    /// Whether one more hard failure makes the endpoint dead.
    pub open spec fn dies_next(self) -> bool {
        self.failures + 1 >= health::HARD_FAILURE_THRESHOLD
    }

    /// The endpoint after one more hard failure.
    pub open spec fn failed(self, now: u64) -> EndpointView {
        let counted = EndpointView { failures: self.failures + 1, ..self };
        if self.dies_next() {
            counted.resting(now, health::HARD_FAILURE_COOLDOWN)
        } else {
            counted
        }
    }

    /// The key under which the endpoint's health is kept.
    pub open spec fn key(self) -> Seq<char> {
        health::key_of(self.chain_id, self.url)
    }
}

/// The view of a store that there may be.
pub open spec fn store_view(store: Option<EndpointHealthStore>) -> Option<
    Map<Seq<char>, HealthEntry>,
> {
    match store {
        Some(s) => Some(s@),
        None => None,
    }
}

/// The store after one more hard failure of an endpoint: the endpoint's death is kept.
pub open spec fn store_after_failure(
    store: Option<Map<Seq<char>, HealthEntry>>,
    endpoint: EndpointView,
    unix: u64,
) -> Option<Map<Seq<char>, HealthEntry>> {
    match store {
        Some(entries) => if endpoint.dies_next() {
            Some(
                entries.insert(
                    endpoint.key(),
                    health::dead_entry(
                        endpoint.chain_id,
                        endpoint.url,
                        (unix + health::HARD_FAILURE_COOLDOWN) as u64,
                    ),
                ),
            )
        } else {
            store
        },
        None => None,
    }
}

/// The store after a success of an endpoint: nothing is kept of it.
pub open spec fn store_after_success(
    store: Option<Map<Seq<char>, HealthEntry>>,
    endpoint: EndpointView,
) -> Option<Map<Seq<char>, HealthEntry>> {
    match store {
        Some(entries) => Some(entries.remove(endpoint.key())),
        None => None,
    }
}

impl View for RpcEndpoint {
    type V = EndpointView;

    closed spec fn view(&self) -> EndpointView {
        EndpointView {
            chain_id: self.chain_id@,
            url: self.url@,
            failures: self.failures as nat,
            unavailable_until: match self.unavailable_until {
                Some(until) => Some(until as nat),
                None => None,
            },
        }
    }
}

impl RpcEndpoint {
    /// An endpoint of no chain in particular.
    pub fn new(url: String) -> (r: RpcEndpoint)
        ensures
            r@ == EndpointView::fresh(Seq::empty(), url@),
    {
        RpcEndpoint::for_chain(String::new(), url)
    }

    /// An endpoint of a chain.
    pub fn for_chain(chain_id: String, url: String) -> (r: RpcEndpoint)
        ensures
            r@ == EndpointView::fresh(chain_id@, url@),
    {
        RpcEndpoint { chain_id, url, failures: 0, unavailable_until: None }
    }

    /// The address of the endpoint.
    pub fn address(&self) -> (r: &str)
        ensures
            r@ == self@.url,
    {
        self.url.as_str()
    }

    /// Whether one more hard failure can be counted.
    pub fn can_count(&self) -> (r: bool)
        ensures
            r == (self@.failures < u32::MAX),
    {
        self.failures < u32::MAX
    }

    /// Whether the endpoint is not resting. A rest that is over is forgotten, with the failures
    /// that led to it.
    pub fn is_healthy(&mut self, now: u64) -> (r: bool)
        ensures
            r == old(self)@.healthy_at(now),
            final(self)@ == old(self)@.checked_at(now),
    {
        if let Some(until) = self.unavailable_until {
            if (now as u128) < until {
                return false;
            }
            self.unavailable_until = None;
            self.failures = 0;
        }
        true
    }

    /// Counts a hard failure: one that makes the endpoint dead sends it to rest, and is kept in the
    /// store. Says whether the store changed.
    pub fn mark_hard_failure(
        &mut self,
        health_store: &mut Option<EndpointHealthStore>,
        clock: Clock,
    ) -> (r: bool)
        requires
            old(self)@.failures < u32::MAX,
            clock.has_room(),
        ensures
            final(self)@ == old(self)@.failed(clock.instant),
            store_view(*final(health_store)) == store_after_failure(
                store_view(*old(health_store)),
                old(self)@,
                clock.unix,
            ),
            r == (old(self)@.dies_next() && *old(health_store) is Some),
    {
        self.failures += 1;
        if self.failures >= health::HARD_FAILURE_THRESHOLD {
            self.unavailable_until =
            Some(health::later(clock.instant, health::HARD_FAILURE_COOLDOWN));
            if let Some(store) = health_store {
                store.mark_dead(
                    self.chain_id.as_str(),
                    self.url.as_str(),
                    health::HARD_FAILURE_COOLDOWN,
                    clock.unix,
                );
                return true;
            }
        }
        false
    }

    /// Sends an endpoint to rest that asked for fewer requests.
    pub fn mark_rate_limited(&mut self, now: u64)
        ensures
            final(self)@ == old(self)@.resting(now, health::RATE_LIMIT_COOLDOWN),
    {
        self.unavailable_until = Some(health::later(now, health::RATE_LIMIT_COOLDOWN));
    }

    /// Forgets what is counted against the endpoint, in the store too. Says whether the store
    /// changed.
    pub fn reset(&mut self, health_store: &mut Option<EndpointHealthStore>) -> (r: bool)
        ensures
            final(self)@ == old(self)@.cleared(),
            store_view(*final(health_store)) == store_after_success(
                store_view(*old(health_store)),
                old(self)@,
            ),
            r == (store_view(*old(health_store)) matches Some(entries) && entries.contains_key(
                old(self)@.key(),
            )),
    {
        self.failures = 0;
        self.unavailable_until = None;
        if let Some(store) = health_store {
            return store.clear(self.chain_id.as_str(), self.url.as_str());
        }
        false
    }

    /// Sends the endpoint to rest as one that was found dead earlier.
    pub fn restore_dead_until(&mut self, unavailable_for: u64, now: u64)
        ensures
            final(self)@ == (EndpointView {
                failures: health::HARD_FAILURE_THRESHOLD as nat,
                ..old(self)@
            }).resting(now, unavailable_for),
    {
        self.failures = health::HARD_FAILURE_THRESHOLD;
        self.unavailable_until = Some(health::later(now, unavailable_for));
    }
}

/// To ask for the health of an endpoint that is not resting changes nothing of it, at whatever time, nor
/// does it while a rest lasts. It is healthy exactly when it is not resting. When a rest is over, it and
/// the failures are forgotten, and nothing else.
pub proof fn law_asking_changes_only_a_rest_that_is_over(e: EndpointView, now: u64)
    ensures
        e.unavailable_until is None ==> e.healthy_at(now) && e.checked_at(now) == e,
        e.unavailable_until matches Some(until) ==> {
            &&& now < until ==> !e.healthy_at(now) && e.checked_at(now) == e
            &&& until <= now ==> e.healthy_at(now) && e.checked_at(now) == (EndpointView {
                chain_id: e.chain_id,
                url: e.url,
                failures: 0,
                unavailable_until: None,
            })
        },
{
}

/// A hard failure adds one to the failures. One that is the third or a later one sends the endpoint to
/// rest until three hours from now; an earlier one leaves its rest as it is.
pub proof fn law_a_failure_adds_one(e: EndpointView, now: u64)
    ensures
        e.failed(now).chain_id == e.chain_id,
        e.failed(now).url == e.url,
        e.failed(now).failures == e.failures + 1,
        e.failures < 2 ==> e.failed(now).unavailable_until == e.unavailable_until,
        e.failures >= 2 ==> e.failed(now).unavailable_until == Some(
            (now + 10_800_000_000_000) as nat,
        ),
        e.dies_next() <==> e.failures >= 2,
{
}

/// A rest and a clearing touch nothing but what they are for.
pub proof fn law_rests_and_clearings(e: EndpointView, now: u64, seconds: u64)
    ensures
        e.resting(now, seconds) == (EndpointView {
            chain_id: e.chain_id,
            url: e.url,
            failures: e.failures,
            unavailable_until: Some((now + seconds * 1_000_000_000) as nat),
        }),
        e.cleared() == (EndpointView {
            chain_id: e.chain_id,
            url: e.url,
            failures: 0,
            unavailable_until: None,
        }),
        EndpointView::fresh(e.chain_id, e.url) == e.cleared(),
        e.key() == e.chain_id + seq!['\n'] + e.url,
{
    health::law_a_key_is_chain_and_address(e.chain_id, e.url);
}

/// The store is touched by the third failure and later ones, which keep the endpoint as dead until three
/// hours from then, and by a success, which drops it. Where nothing is kept, nothing ever is.
pub proof fn law_what_is_kept_of_an_endpoint(
    entries: Map<Seq<char>, HealthEntry>,
    e: EndpointView,
    unix: u64,
)
    requires
        unix + 10_800 <= u64::MAX,
    ensures
        store_after_failure(None, e, unix) is None,
        store_after_success(None, e) is None,
        e.failures < 2 ==> store_after_failure(Some(entries), e, unix) == Some(entries),
        e.failures >= 2 ==> store_after_failure(Some(entries), e, unix) == Some(
            entries.insert(
                e.chain_id + seq!['\n'] + e.url,
                HealthEntry {
                    chain_id: e.chain_id,
                    url: e.url,
                    reason: seq!['d', 'e', 'a', 'd'],
                    unavailable_until: (unix + 10_800) as u64,
                },
            ),
        ),
        store_after_success(Some(entries), e) == Some(
            entries.remove(e.chain_id + seq!['\n'] + e.url),
        ),
{
    health::law_a_key_is_chain_and_address(e.chain_id, e.url);
    reveal_strlit("dead");
    assert("dead"@ =~= seq!['d', 'e', 'a', 'd']);
}

/// Something that happens to an endpoint without a success: its health is asked for, or it fails.
pub enum Mark {
    Asked { now: u64 },
    Failed { now: u64 },
}

/// An endpoint after some of these.
pub open spec fn marked(e: EndpointView, marks: Seq<Mark>) -> EndpointView
    decreases marks.len(),
{
    if marks.len() == 0 {
        e
    } else {
        match marks.last() {
            Mark::Asked { now } => marked(e, marks.drop_last()).checked_at(now),
            Mark::Failed { now } => marked(e, marks.drop_last()).failed(now),
        }
    }
}

/// How many of the marks are failures.
pub open spec fn failures_in(marks: Seq<Mark>) -> nat
    decreases marks.len(),
{
    if marks.len() == 0 {
        0
    } else {
        failures_in(marks.drop_last()) + (if marks.last() is Failed {
            1nat
        } else {
            0
        })
    }
}

/// Failures add up, however often and whenever the health of the endpoint is asked for in between: of an
/// endpoint that began with nothing against it, fewer than three leave it out of rest with each of them
/// counted, and the failure that makes three sends it to rest for three hours from then.
pub proof fn law_failures_add_up(e: EndpointView, marks: Seq<Mark>)
    requires
        e.failures == 0,
        e.unavailable_until is None,
    ensures
        failures_in(marks) < 3 ==> marked(e, marks) == (EndpointView {
            failures: failures_in(marks),
            ..e
        }),
        marks.len() > 0 && failures_in(marks.drop_last()) == 2 ==> (marks.last() matches Mark::Failed {
            now,
        } ==> marked(e, marks) == (EndpointView {
            failures: 3,
            unavailable_until: Some((now + 10_800_000_000_000) as nat),
            ..e
        })),
    decreases marks.len(),
{
    if marks.len() > 0 {
        law_failures_add_up(e, marks.drop_last());
    }
}

/// A store that there may be is seen as it is.
pub proof fn law_a_store_is_seen_as_it_is(store: Option<EndpointHealthStore>)
    ensures
        store is None ==> store_view(store) is None,
        store matches Some(s) ==> store_view(store) == Some(s@),
{
}

/// An endpoint is seen as it is.
proof fn law_an_endpoint_is_seen_as_it_is(e: RpcEndpoint)
    ensures
        e@.chain_id == e.chain_id@,
        e@.url == e.url@,
        e@.failures == e.failures,
        e.unavailable_until is None ==> e@.unavailable_until is None,
        e.unavailable_until matches Some(until) ==> e@.unavailable_until == Some(until as nat),
{
}

} // verus!
