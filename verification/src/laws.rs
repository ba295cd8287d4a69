//! What holds of the proxy as a whole.

use crate::chain;
use crate::chain::ChainView;
use crate::endpoint;
use crate::endpoint::EndpointView;
use crate::exchange;
use crate::exchange::ActionView;
use crate::exchange::AttemptView;
use crate::exchange::Await;
use crate::exchange::EventView;
use crate::exchange::ExchangeView;
use crate::exchange::LegTurnView;
use crate::exchange::LegView;
use crate::exchange::NewsView;
use crate::exchange::ProxyView;
use crate::exchange::TurnView;
use crate::health;
use crate::health::Clock;
use crate::health::HealthEntry;
use crate::json;
use crate::lookup;
use crate::proxy;
use vstd::prelude::*;

verus! {

/// Whether two endpoints are the same but for their health.
pub open spec fn same_endpoint(a: EndpointView, b: EndpointView) -> bool {
    a.chain_id == b.chain_id && a.url == b.url
}

/// Whether two states of a chain have the same endpoints, but for their health.
pub open spec fn same_endpoints(a: ChainView, b: ChainView) -> bool {
    &&& a.endpoints.len() == b.endpoints.len()
    &&& forall|i: int|
        0 <= i < a.endpoints.len() ==> same_endpoint(#[trigger] a.endpoints[i], b.endpoints[i])
}

/// Whether two states of the proxy have the same settings, the same chains and the same endpoints,
/// but for their health.
pub open spec fn same_shape(a: ProxyView, b: ProxyView) -> bool {
    &&& a.chains.len() == b.chains.len()
    &&& forall|c: int|
        0 <= c < a.chains.len() ==> (#[trigger] a.chains[c]).0 == b.chains[c].0 && same_endpoints(
            a.chains[c].1,
            b.chains[c].1,
        )
    &&& a.auth_token == b.auth_token
    &&& a.store is Some == b.store is Some
    &&& a.verbose == b.verbose
    &&& a.request_timeout == b.request_timeout
}

pub(crate) proof fn lemma_shape_is_transitive(a: ProxyView, b: ProxyView, c: ProxyView)
    requires
        same_shape(a, b),
        same_shape(b, c),
    ensures
        same_shape(a, c),
{
    assert forall|k: int| 0 <= k < a.chains.len() implies (#[trigger] a.chains[k]).0
        == c.chains[k].0 && same_endpoints(a.chains[k].1, c.chains[k].1) by {
        assert(a.chains[k].0 == b.chains[k].0);
        assert(b.chains[k].0 == c.chains[k].0);
        assert forall|i: int| 0 <= i < a.chains[k].1.endpoints.len() implies same_endpoint(
            #[trigger] a.chains[k].1.endpoints[i],
            c.chains[k].1.endpoints[i],
        ) by {
            assert(same_endpoint(b.chains[k].1.endpoints[i], c.chains[k].1.endpoints[i]));
        }
    }
}

proof fn lemma_shape_with_chain(p: ProxyView, c: int, state: ChainView)
    requires
        0 <= c < p.chains.len(),
        same_endpoints(p.chains[c].1, state),
    ensures
        same_shape(p, p.with_chain(c, state)),
{
}

pub(crate) proof fn lemma_place_in_range(p: ProxyView, a: AttemptView)
    requires
        a.valid(p, Await::Answer),
    ensures
        0 <= p.place_of(a) < p.endpoints(a.chain).len(),
{
    vstd::arithmetic::div_mod::lemma_mod_bound(
        a.start + a.offset,
        p.endpoints(a.chain).len() as int,
    );
}

pub(crate) proof fn lemma_found_in_range(endpoints: Seq<EndpointView>, start: int, from: int, now: u64)
    requires
        0 <= from,
    ensures
        chain::next_healthy(endpoints, start, from, now) matches Some(k) ==> {
            &&& from <= k < endpoints.len()
            &&& endpoints[chain::place(start, k, endpoints.len() as int)].healthy_at(now)
            &&& forall|j: int|
                from <= j < k ==> !(#[trigger] endpoints[chain::place(
                    start,
                    j,
                    endpoints.len() as int,
                )]).healthy_at(now)
        },
        chain::next_healthy(endpoints, start, from, now) is None ==> forall|j: int|
            from <= j < endpoints.len() ==> !(#[trigger] endpoints[chain::place(
                start,
                j,
                endpoints.len() as int,
            )]).healthy_at(now),
    decreases endpoints.len() - from,
{
    if from < endpoints.len() {
        lemma_found_in_range(endpoints, start, from + 1, now);
    }
}

proof fn lemma_marks_keep_shape(p: ProxyView, a: AttemptView, clock: Clock)
    requires
        a.valid(p, Await::Answer),
    ensures
        same_shape(p, p.after_failure(a, clock)),
        same_shape(p, p.after_rate_limit(a, clock)),
        same_shape(p, p.after_success(a)),
{
    lemma_place_in_range(p, a);
}

proof fn lemma_search_keeps_shape(p: ProxyView, a: AttemptView, now: u64)
    requires
        a.valid(p, Await::Wake),
    ensures
        same_shape(p, exchange::searched(p, a, now)),
{
    lemma_found_in_range(p.endpoints(a.chain), a.start, a.offset, now);
    if let Some(k) = exchange::next_offset(p, a, now) {
        lemma_place_in_range(p, AttemptView { offset: k, ..a });
    }
    lemma_shape_with_chain(p, a.chain, p.chains[a.chain].1.searched(a.start, a.offset, now));
}

proof fn lemma_shape_keeps_attempts(p: ProxyView, q: ProxyView, a: AttemptView, awaits: Await)
    requires
        same_shape(p, q),
        a.valid(p, awaits),
    ensures
        a.valid(q, awaits),
{
    assert(p.chains[a.chain].0 == q.chains[a.chain].0);
}

pub(crate) proof fn lemma_chain_index(chains: Seq<(Seq<char>, ChainView)>, name: Seq<char>, from: int)
    requires
        0 <= from,
    ensures
        exchange::chain_index(chains, name, from) matches Some(c) ==> from <= c < chains.len()
            && chains[c].0 == name,
        exchange::chain_index(chains, name, from) is None ==> forall|c: int|
            from <= c < chains.len() ==> (#[trigger] chains[c]).0 != name,
    decreases chains.len() - from,
{
    if from < chains.len() {
        lemma_chain_index(chains, name, from + 1);
    }
}

/// Whether a step leaves the settings, the chains and the endpoints as they were, but for their
/// health, and the request where the proxy has endpoints.
pub open spec fn sound(p: ProxyView, turn: TurnView) -> bool {
    same_shape(p, turn.proxy) && turn.exchange.valid(turn.proxy)
}

proof fn lemma_sought_is_sound(p: ProxyView, a: AttemptView, now: u64)
    requires
        a.valid(p, Await::Wake),
    ensures
        sound(p, exchange::sought(p, a, now)),
{
    lemma_found_in_range(p.endpoints(a.chain), a.start, a.offset, now);
    lemma_search_keeps_shape(p, a, now);
    match exchange::next_offset(p, a, now) {
        Some(k) => {
            lemma_shape_keeps_attempts(
                p,
                exchange::searched(p, a, now),
                AttemptView { offset: k, ..a },
                Await::Answer,
            );
        },
        None => {
            vstd::arithmetic::div_mod::lemma_mod_bound(
                a.start + 1,
                p.endpoints(a.chain).len() as int,
            );
        },
    }
}

proof fn lemma_counting_is_sound(p: ProxyView, c: int)
    requires
        0 <= c < p.chains.len(),
        p.endpoints(c).len() > 0,
    ensures
        same_shape(p, p.with_chain(c, p.chains[c].1.counted())),
        0 <= p.chains[c].1.first_place() < p.endpoints(c).len(),
{
    lemma_shape_with_chain(p, c, p.chains[c].1.counted());
    vstd::arithmetic::div_mod::lemma_mod_bound(
        p.chains[c].1.current_index as int,
        p.endpoints(c).len() as int,
    );
}

/// Whether a step of a lookup with one of its targets leaves the settings, the chains and the endpoints
/// as they were, but for their health, and the target where the proxy has endpoints.
pub open spec fn sound_leg(p: ProxyView, turn: LegTurnView) -> bool {
    same_shape(p, turn.proxy) && turn.leg.valid(turn.proxy)
}

proof fn lemma_looked_at_is_sound(p: ProxyView, a: AttemptView, now: u64)
    requires
        a.valid(p, Await::Wake),
    ensures
        sound_leg(p, exchange::looked_at(p, a, now)),
{
    lemma_found_in_range(p.endpoints(a.chain), a.start, a.offset, now);
    lemma_search_keeps_shape(p, a, now);
    if let Some(k) = exchange::next_offset(p, a, now) {
        lemma_shape_keeps_attempts(
            p,
            exchange::searched(p, a, now),
            AttemptView { offset: k, ..a },
            Await::Answer,
        );
    }
}

pub(crate) proof fn lemma_asked_is_sound(
    p: ProxyView,
    target: Seq<char>,
    address: Seq<char>,
    now: u64,
)
    ensures
        sound_leg(p, exchange::asked(p, target, address, now)),
{
    lemma_chain_index(p.chains, target, 0);
    if let Some(c) = p.chain_named(target) {
        if p.endpoints(c).len() > 0 {
            let state = p.chains[c].1;
            let counted = p.with_chain(c, state.counted());
            let a = AttemptView {
                chain: c,
                payload: json::rendered_json(lookup::code_question(address)),
                start: state.first_place(),
                offset: 0,
            };
            lemma_counting_is_sound(p, c);
            lemma_looked_at_is_sound(counted, a, now);
            lemma_shape_is_transitive(p, counted, exchange::looked_at(counted, a, now).proxy);
        }
    }
}

pub(crate) proof fn lemma_all_asked_is_sound(
    p: ProxyView,
    targets: Seq<Seq<char>>,
    address: Seq<char>,
    now: u64,
)
    ensures
        ({
            let all = exchange::all_asked(p, targets, address, now);
            &&& same_shape(p, all.proxy)
            &&& all.legs.len() == targets.len()
            &&& forall|i: int| 0 <= i < all.legs.len() ==> (#[trigger] all.legs[i]).valid(all.proxy)
        }),
    decreases targets.len(),
{
    if targets.len() > 0 {
        let rest = targets.drop_last();
        lemma_all_asked_is_sound(p, rest, address, now);
        let before = exchange::all_asked(p, rest, address, now);
        let all = exchange::all_asked(p, targets, address, now);
        lemma_asked_is_sound(before.proxy, targets.last(), address, now);
        lemma_shape_is_transitive(p, before.proxy, all.proxy);
        assert forall|i: int| 0 <= i < all.legs.len() implies (#[trigger] all.legs[i]).valid(
            all.proxy,
        ) by {
            if i < before.legs.len() {
                assert(all.legs[i] == before.legs[i]);
                lemma_shape_keeps_legs(before.proxy, all.proxy, before.legs[i]);
            }
        }
    }
}

pub(crate) proof fn lemma_shape_keeps_legs(p: ProxyView, q: ProxyView, leg: LegView)
    requires
        same_shape(p, q),
        leg.valid(p),
    ensures
        leg.valid(q),
{
    if let LegView::Asking { attempt, awaits } = leg {
        lemma_shape_keeps_attempts(p, q, attempt, awaits);
    }
}

pub(crate) proof fn lemma_target_looked_is_sound(
    p: ProxyView,
    attempt: AttemptView,
    awaits: Await,
    news: NewsView,
    clock: Clock,
)
    requires
        attempt.valid(p, awaits),
        exchange::awaited(awaits, news),
    ensures
        sound_leg(p, exchange::target_looked(p, attempt, news, clock)),
{
    if awaits is Wake {
        lemma_looked_at_is_sound(p, attempt, clock.instant);
    } else {
        lemma_marks_keep_shape(p, attempt, clock);
        let failed = p.after_failure(attempt, clock);
        let limited = p.after_rate_limit(attempt, clock);
        lemma_shape_keeps_attempts(p, failed, attempt, Await::Answer);
        lemma_shape_keeps_attempts(p, limited, attempt, Await::Answer);
        lemma_looked_at_is_sound(failed, attempt.moved_on(), clock.instant);
        lemma_shape_is_transitive(
            p,
            failed,
            exchange::looked_at(failed, attempt.moved_on(), clock.instant).proxy,
        );
    }
}

/// Every step leaves the settings, the chains and the endpoints as they were, but for their health,
/// and leaves the request where the next step can be taken.
pub proof fn law_steps_are_sound(
    p: ProxyView,
    exchange: ExchangeView,
    event: EventView,
    clock: Clock,
)
    requires
        exchange::ready(p, exchange, event, clock),
    ensures
        same_shape(p, exchange::advanced(p, exchange, event, clock).proxy),
        exchange::advanced(p, exchange, event, clock).exchange.valid(
            exchange::advanced(p, exchange, event, clock).proxy,
        ),
{
    match exchange {
        ExchangeView::Reading { segment } => {
            lemma_chain_index(p.chains, segment, 0);
            if let EventView::Body(Some(bytes)) = event {
                if let Ok(request) = json::parsed_json(bytes) {
                    if let Ok(params) = lookup::contract_params(request) {
                        lemma_all_asked_is_sound(
                            p,
                            exchange::targets_of(p, params.1),
                            params.0,
                            clock.instant,
                        );
                    }
                }
            }
        },
        ExchangeView::Ready { chain, payload } => {
            lemma_counting_is_sound(p, chain);
            let counted = p.with_chain(chain, p.chains[chain].1.counted());
            let a = AttemptView {
                chain,
                payload,
                start: p.chains[chain].1.first_place(),
                offset: 0,
            };
            lemma_sought_is_sound(counted, a, clock.instant);
            lemma_shape_is_transitive(
                p,
                counted,
                exchange::sought(counted, a, clock.instant).proxy,
            );
        },
        ExchangeView::Forwarding { attempt, awaits } => {
            if awaits is Wake {
                lemma_sought_is_sound(p, attempt, clock.instant);
            } else {
                lemma_marks_keep_shape(p, attempt, clock);
                let failed = p.after_failure(attempt, clock);
                let limited = p.after_rate_limit(attempt, clock);
                lemma_shape_keeps_attempts(p, failed, attempt, Await::Answer);
                lemma_shape_keeps_attempts(p, limited, attempt, Await::Answer);
                lemma_sought_is_sound(failed, attempt.moved_on(), clock.instant);
                lemma_shape_is_transitive(
                    p,
                    failed,
                    exchange::sought(failed, attempt.moved_on(), clock.instant).proxy,
                );
            }
        },
        ExchangeView::Looking { lookup: l } => {
            if let EventView::Target { target, news } = event {
                assert(l.legs[target].valid(p));
                if let LegView::Asking { attempt, awaits } = l.legs[target] {
                    lemma_target_looked_is_sound(p, attempt, awaits, news, clock);
                    let step = exchange::target_looked(p, attempt, news, clock);
                    assert forall|i: int| 0 <= i < l.legs.len() implies (#[trigger] l.with_leg(
                        target,
                        step.leg,
                    ).legs[i]).valid(step.proxy) by {
                        assert(l.legs[i].valid(p));
                        lemma_shape_keeps_legs(p, step.proxy, l.legs[i]);
                    }
                }
            }
        },
        ExchangeView::Finished => {},
    }
}

/// A request can always go on, whatever steps were taken for others in the meantime: it stands where
/// the proxy has endpoints after every step that leaves the endpoints in place.
pub proof fn law_requests_do_not_disturb_each_other(
    p: ProxyView,
    q: ProxyView,
    exchange: ExchangeView,
)
    requires
        same_shape(p, q),
        exchange.valid(p),
    ensures
        exchange.valid(q),
{
    match exchange {
        ExchangeView::Forwarding { attempt, awaits } => {
            lemma_shape_keeps_attempts(p, q, attempt, awaits);
        },
        ExchangeView::Looking { lookup: l } => {
            assert forall|i: int| 0 <= i < l.legs.len() implies (#[trigger] l.legs[i]).valid(q) by {
                lemma_shape_keeps_legs(p, q, l.legs[i]);
            }
        },
        _ => {},
    }
}

/// A token that is required is asked for before anything else: a request that does not present it is
/// answered with status 401, whatever its path, and a request that does is never answered so. A proxy
/// without a token asks for none. In no case does the beginning of a request change the proxy.
pub proof fn law_the_token_comes_first(
    p: ProxyView,
    presented: Option<Seq<char>>,
    path: Seq<char>,
)
    ensures
        exchange::admitted(p, presented, path).proxy == p,
        p.auth_token is Some && presented != p.auth_token ==> exchange::admitted(
            p,
            presented,
            path,
        ) == exchange::told(p, 401, "Missing or invalid auth token"@),
        (p.auth_token is None || presented == p.auth_token) ==> (match exchange::admitted(
            p,
            presented,
            path,
        ).action {
            ActionView::ReadBody => true,
            ActionView::Reply { status, .. } => status == 400,
            _ => false,
        }),
{
}

/// A request whose body was read is told that its chain is not supported exactly when its path names
/// neither a chain of the proxy nor the lookup.
pub proof fn law_unknown_chains_are_refused(
    p: ProxyView,
    segment: Seq<char>,
    body: Seq<u8>,
    now: u64,
)
    ensures
        (forall|c: int| 0 <= c < p.chains.len() ==> (#[trigger] p.chains[c]).0 != segment)
            && segment != "sr_contract_chains"@ ==> exchange::received(p, segment, Some(body), now)
            == exchange::told(p, 404, "Chain not supported"@),
        (exists|c: int| 0 <= c < p.chains.len() && (#[trigger] p.chains[c]).0 == segment)
            && segment != "sr_contract_chains"@ ==> (match exchange::received(
            p,
            segment,
            Some(body),
            now,
        ).action {
            ActionView::Proceed => true,
            ActionView::Reply { status, .. } => status == 400,
            _ => false,
        }),
{
    lemma_chain_index(p.chains, segment, 0);
}

/// A document that is on its way through the endpoints of a chain is tried until one of them meets
/// it: no step but the arrival of a response's body answers the client, and that answer is the body
/// itself with status 200, whatever it says. Until then every endpoint gets the same document, and
/// the next thing to do is to send it, to read a response, or to wait.
pub proof fn law_only_success_ends_forwarding(
    p: ProxyView,
    attempt: AttemptView,
    awaits: Await,
    event: EventView,
    clock: Clock,
)
    requires
        exchange::ready(p, ExchangeView::Forwarding { attempt, awaits }, event, clock),
    ensures
        ({
            let turn = exchange::advanced(
                p,
                ExchangeView::Forwarding { attempt, awaits },
                event,
                clock,
            );
            match event {
                EventView::News(NewsView::ReplyBody(Some(body))) => {
                    &&& turn.exchange == ExchangeView::Finished
                    &&& turn.action == ActionView::Reply { status: 200, body }
                },
                _ => {
                    &&& turn.exchange matches ExchangeView::Forwarding { attempt: next, .. }
                        && next.chain == attempt.chain && next.payload == attempt.payload
                    &&& (match turn.action {
                        ActionView::Post { payload, .. } => payload == attempt.payload,
                        ActionView::ReadReply => true,
                        ActionView::Sleep { .. } => true,
                        _ => false,
                    })
                },
            }
        }),
{
}

/// Whether an event is the body of a response that meets a request: any body, for a document, and one
/// with code, for the question of a lookup.
pub open spec fn meets(exchange: ExchangeView, event: EventView) -> bool {
    match (exchange, event) {
        (ExchangeView::Forwarding { .. }, EventView::News(NewsView::ReplyBody(Some(_)))) => true,
        (
            ExchangeView::Looking { .. },
            EventView::Target { news: NewsView::ReplyBody(Some(body)), .. },
        ) => lookup::code_answer(body) is Code,
        _ => false,
    }
}

/// A response that meets a request changes the health of no endpoint but the one that gave it, and
/// leaves nothing counted or kept against that one. For a document that is so whatever the body says,
/// for a lookup when there is code in it.
pub proof fn law_success_clears_the_endpoint(
    p: ProxyView,
    exchange: ExchangeView,
    attempt: AttemptView,
    event: EventView,
    clock: Clock,
)
    requires
        exchange::ready(p, exchange, event, clock),
        exchange.concerned(event) == Some((attempt, Await::Body)),
        meets(exchange, event),
    ensures
        ({
            let turn = exchange::advanced(p, exchange, event, clock);
            &&& turn.proxy.endpoint_of(attempt).failures == 0
            &&& forall|now: u64| #[trigger] turn.proxy.endpoint_of(attempt).healthy_at(now)
            &&& turn.proxy.store matches Some(entries) ==> !entries.contains_key(
                p.endpoint_of(attempt).key(),
            )
            &&& turn.persist <==> p.store is Some && p.store->0.contains_key(
                p.endpoint_of(attempt).key(),
            )
            &&& others_unchanged(p, turn.proxy, attempt)
        }),
{
    lemma_concerned_is_valid(p, exchange, attempt, Await::Body, event);
    lemma_place_in_range(p, attempt);
}

proof fn lemma_concerned_is_valid(
    p: ProxyView,
    exchange: ExchangeView,
    attempt: AttemptView,
    awaits: Await,
    event: EventView,
)
    requires
        exchange.valid(p),
        exchange.concerned(event) == Some((attempt, awaits)),
    ensures
        attempt.valid(p, awaits),
{
    if let ExchangeView::Looking { lookup: l } = exchange {
        if let EventView::Target { target, .. } = event {
            assert(l.legs[target].valid(p));
        }
    }
}

/// Whether two states of the proxy differ in nothing but one endpoint and the store.
pub open spec fn others_unchanged(p: ProxyView, q: ProxyView, attempt: AttemptView) -> bool {
    &&& q.chains.len() == p.chains.len()
    &&& forall|c: int| 0 <= c < p.chains.len() && c != attempt.chain ==> q.chains[c] == p.chains[c]
    &&& q.endpoints(attempt.chain).len() == p.endpoints(attempt.chain).len()
    &&& forall|i: int|
        0 <= i < p.endpoints(attempt.chain).len() && i != p.place_of(attempt) ==> q.endpoints(
            attempt.chain,
        )[i] == p.endpoints(attempt.chain)[i]
}

/// An endpoint that asks for fewer requests rests for a minute. That counts as no failure and is kept
/// nowhere, in a lookup as elsewhere.
pub proof fn law_rate_limits_are_not_kept(
    p: ProxyView,
    exchange: ExchangeView,
    attempt: AttemptView,
    event: EventView,
    clock: Clock,
)
    requires
        exchange::ready(p, exchange, event, clock),
        exchange.concerned(event) == Some((attempt, Await::Answer)),
        exchange::news_in(event) == NewsView::Answered(429),
    ensures
        ({
            let turn = exchange::advanced(p, exchange, event, clock);
            let before = p.endpoint_of(attempt);
            let after = turn.proxy.endpoint_of(attempt);
            &&& !turn.persist
            &&& turn.proxy.store == p.store
            &&& after.failures == before.failures
            &&& forall|now: u64| #[trigger]
                after.healthy_at(now) <==> now >= clock.instant + 60 * 1_000_000_000
            &&& others_unchanged(p, turn.proxy, attempt)
        }),
{
    lemma_concerned_is_valid(p, exchange, attempt, Await::Answer, event);
    lemma_place_in_range(p, attempt);
}

/// Two hard failures of an endpoint against which nothing is counted leave it healthy. The third makes
/// it rest for three hours from then on, and not longer.
pub proof fn law_three_failures_make_an_endpoint_rest(
    e: EndpointView,
    first: u64,
    second: u64,
    third: u64,
)
    requires
        e.failures == 0,
        e.unavailable_until is None,
    ensures
        forall|now: u64| #[trigger] e.failed(first).healthy_at(now),
        forall|now: u64| #[trigger] e.failed(first).failed(second).healthy_at(now),
        forall|now: u64| #[trigger]
            e.failed(first).failed(second).failed(third).healthy_at(now) <==> now >= third + 3 * 60
                * 60 * 1_000_000_000,
{
}

/// A rest that is over leaves nothing counted against the endpoint.
pub proof fn law_a_rest_that_is_over_is_forgotten(e: EndpointView, now: u64)
    requires
        e.unavailable_until is Some,
        e.healthy_at(now),
    ensures
        e.checked_at(now) == EndpointView::fresh(e.chain_id, e.url),
{
}

/// An endpoint's death outlives the process: a proxy that starts from what was kept finds the endpoint
/// resting for as long as is left of the three hours, and healthy from then on. One that starts later
/// finds it healthy.
pub proof fn law_a_death_is_kept_and_restored(
    entries: Map<Seq<char>, HealthEntry>,
    e: EndpointView,
    death: Clock,
    restart: Clock,
)
    requires
        e.dies_next(),
        death.has_room(),
    ensures
        ({
            let kept = endpoint::store_after_failure(Some(entries), e, death.unix);
            let restored = proxy::initial_endpoint(
                proxy::initial_store(kept, restart.unix),
                e.chain_id,
                e.url,
                restart,
            );
            let end = death.unix + 3 * 60 * 60;
            &&& restart.unix < end ==> forall|now: u64| #[trigger]
                restored.healthy_at(now) <==> now >= restart.instant + (end - restart.unix)
                    * 1_000_000_000
            &&& restart.unix >= end ==> restored == EndpointView::fresh(e.chain_id, e.url)
        }),
{
}

/// What is kept of one endpoint never stands for another, as long as no chain's name holds a line
/// break.
pub proof fn law_keys_tell_endpoints_apart(
    chain_a: Seq<char>,
    url_a: Seq<char>,
    chain_b: Seq<char>,
    url_b: Seq<char>,
)
    requires
        !chain_a.contains('\n'),
        !chain_b.contains('\n'),
        health::key_of(chain_a, url_a) == health::key_of(chain_b, url_b),
    ensures
        chain_a == chain_b,
        url_a == url_b,
{
    let key_a = health::key_of(chain_a, url_a);
    let key_b = health::key_of(chain_b, url_b);
    let n = chain_a.len() as int;
    let m = chain_b.len() as int;
    assert(key_a[n] == '\n' && key_b[m] == '\n');
    if n < m {
        assert(key_b[n] == chain_b[n]);
        assert(chain_b.contains(chain_b[n]));
    }
    if m < n {
        assert(key_a[m] == chain_a[m]);
        assert(chain_a.contains(chain_a[m]));
    }
    assert forall|i: int| 0 <= i < n implies chain_a[i] == chain_b[i] by {
        assert(key_a[i] == chain_a[i] && key_b[i] == chain_b[i]);
    }
    assert(chain_a =~= chain_b);
    assert(url_a.len() == key_a.len() - n - 1 && url_b.len() == key_b.len() - n - 1);
    assert forall|i: int| 0 <= i < url_a.len() implies url_a[i] == url_b[i] by {
        assert(key_a[n + 1 + i] == url_a[i] && key_b[n + 1 + i] == url_b[i]);
    }
    assert(url_a =~= url_b);
}

/// Requests take turns: each starts one place further around the ring of a chain's endpoints than the
/// one before it.
pub proof fn law_starts_take_turns(state: ChainView)
    requires
        state.endpoints.len() > 0,
        state.current_index < usize::MAX,
    ensures
        state.counted().first_place() == chain::place(
            state.first_place(),
            1,
            state.endpoints.len() as int,
        ),
{
    let n = state.endpoints.len() as int;
    let i = state.current_index as int;
    vstd::arithmetic::div_mod::lemma_add_mod_noop(i, 1, n);
    vstd::arithmetic::div_mod::lemma_add_mod_noop(i % n, 1, n);
    vstd::arithmetic::div_mod::lemma_mod_twice(i, n);
}

/// A pass over the endpoints comes to each of them exactly once, wherever it starts.
pub proof fn law_a_pass_covers_every_endpoint(start: int, total: int, i: int)
    requires
        0 <= start < total,
        0 <= i < total,
    ensures
        exists|offset: int|
            0 <= offset < total && #[trigger] chain::place(start, offset, total) == i && forall|
                other: int,
            |
                0 <= other < total && #[trigger] chain::place(start, other, total) == i ==> other
                    == offset,
{
    let offset = if i >= start {
        i - start
    } else {
        i - start + total
    };
    assert(chain::place(start, offset, total) == i) by {
        lemma_place(start, offset, total);
    }
    assert forall|other: int|
        0 <= other < total && #[trigger] chain::place(start, other, total) == i implies other
        == offset by {
        lemma_place(start, other, total);
    }
}

proof fn lemma_place(start: int, offset: int, total: int)
    requires
        0 <= start < total,
        0 <= offset < total,
    ensures
        chain::place(start, offset, total) == (if start + offset < total {
            start + offset
        } else {
            start + offset - total
        }),
{
    if start + offset < total {
        vstd::arithmetic::div_mod::lemma_small_mod((start + offset) as nat, total as nat);
    } else {
        let r = start + offset - total;
        vstd::arithmetic::div_mod::lemma_small_mod(r as nat, total as nat);
        vstd::arithmetic::div_mod::lemma_mod_add_multiples_vanish(r, total);
    }
}

/// A document goes to healthy endpoints only, and to the first in the order of the pass. When a pass
/// begins and any endpoint of the chain is healthy, the document goes out at once; when none is, the
/// next pass begins one place further on after a pause, with the document and the endpoints as they
/// were.
pub proof fn law_documents_go_to_healthy_endpoints(p: ProxyView, attempt: AttemptView, now: u64)
    requires
        attempt.valid(p, Await::Wake),
    ensures
        match exchange::sought(p, attempt, now).exchange {
            ExchangeView::Forwarding { attempt: next, awaits: Await::Answer } => {
                &&& attempt.offset <= next.offset
                &&& p.endpoint_of(next).healthy_at(now)
                &&& exchange::sought(p, attempt, now).action == (ActionView::Post {
                    url: p.endpoint_of(next).url,
                    payload: attempt.payload,
                })
                &&& forall|k: int|
                    attempt.offset <= k < next.offset ==> !(#[trigger] p.endpoints(
                        attempt.chain,
                    )[chain::place(
                        attempt.start,
                        k,
                        p.endpoints(attempt.chain).len() as int,
                    )]).healthy_at(now)
            },
            ExchangeView::Forwarding { attempt: next, awaits: Await::Wake } => {
                &&& exchange::sought(p, attempt, now).proxy == p
                &&& exchange::sought(p, attempt, now).action == (ActionView::Sleep { millis: 200 })
                &&& next == (AttemptView {
                    start: chain::place(
                        attempt.start,
                        1,
                        p.endpoints(attempt.chain).len() as int,
                    ),
                    offset: 0,
                    ..attempt
                })
            },
            _ => false,
        },
        attempt.offset == 0 && (exists|i: int|
            0 <= i < p.endpoints(attempt.chain).len() && (#[trigger] p.endpoints(
                attempt.chain,
            )[i]).healthy_at(now)) ==> exchange::sought(p, attempt, now).action is Post,
{
    let endpoints = p.endpoints(attempt.chain);
    let n = endpoints.len() as int;
    lemma_found_in_range(endpoints, attempt.start, attempt.offset, now);
    if attempt.offset == 0 && exchange::next_offset(p, attempt, now) is None {
        assert forall|i: int| 0 <= i < n implies !(#[trigger] endpoints[i]).healthy_at(now) by {
            law_a_pass_covers_every_endpoint(attempt.start, n, i);
            let offset = choose|offset: int|
                0 <= offset < n && #[trigger] chain::place(attempt.start, offset, n) == i;
            assert(!endpoints[chain::place(attempt.start, offset, n)].healthy_at(now));
        }
    }
}

/// Whether news count as a hard failure of the endpoint that has a request: there was no response, or
/// one with a status that neither says that the request was met nor asks for fewer, or one whose body
/// could not be read, or, in a lookup, one whose body is no answer to the question.
pub open spec fn hard_failure(exchange: ExchangeView, news: NewsView) -> bool {
    match news {
        NewsView::Unreachable => true,
        NewsView::Answered(status) => !exchange::success(status) && status != 429,
        NewsView::ReplyBody(None) => true,
        NewsView::ReplyBody(Some(body)) => exchange is Looking && lookup::code_answer(
            body,
        ) is Unusable,
        NewsView::Woke => false,
    }
}

/// Whether two states of the proxy differ in nothing but one endpoint, the store, and rests of other
/// endpoints of the same chain that were over and are forgotten.
pub open spec fn others_kept(p: ProxyView, q: ProxyView, attempt: AttemptView, now: u64) -> bool {
    &&& q.chains.len() == p.chains.len()
    &&& forall|c: int| 0 <= c < p.chains.len() && c != attempt.chain ==> q.chains[c] == p.chains[c]
    &&& q.endpoints(attempt.chain).len() == p.endpoints(attempt.chain).len()
    &&& forall|i: int|
        0 <= i < p.endpoints(attempt.chain).len() && i != p.place_of(attempt) ==> {
            ||| (#[trigger] q.endpoints(attempt.chain)[i]) == p.endpoints(attempt.chain)[i]
            ||| q.endpoints(attempt.chain)[i] == p.endpoints(attempt.chain)[i].checked_at(now)
        }
}

proof fn lemma_search_passes_by(p: ProxyView, attempt: AttemptView, now: u64)
    requires
        attempt.valid(p, Await::Answer),
    ensures
        ({
            let after = exchange::searched(p, attempt.moved_on(), now);
            &&& others_kept(p, after, attempt, now)
            &&& after.endpoint_of(attempt) == p.endpoint_of(attempt)
            &&& after.store == p.store
        }),
{
    let n = p.endpoints(attempt.chain).len() as int;
    let moved = attempt.moved_on();
    lemma_found_in_range(p.endpoints(attempt.chain), attempt.start, moved.offset, now);
    lemma_place_in_range(p, attempt);
    if let Some(k) = exchange::next_offset(p, moved, now) {
        lemma_place(attempt.start, k, n);
        lemma_place(attempt.start, attempt.offset, n);
    }
}

/// A hard failure is counted against the endpoint that has the request, and against no other. The
/// store changes exactly when it is the one that makes the endpoint dead, and then it holds the
/// endpoint. Where there was no response, or one with a wrong status, the request goes on after a pause.
pub proof fn law_hard_failures_are_counted(
    p: ProxyView,
    exchange: ExchangeView,
    attempt: AttemptView,
    awaits: Await,
    event: EventView,
    clock: Clock,
)
    requires
        exchange::ready(p, exchange, event, clock),
        exchange.concerned(event) == Some((attempt, awaits)),
        hard_failure(exchange, exchange::news_in(event)),
    ensures
        ({
            let turn = exchange::advanced(p, exchange, event, clock);
            let before = p.endpoint_of(attempt);
            let after = turn.proxy.endpoint_of(attempt);
            &&& after == before.failed(clock.instant)
            &&& after.failures == before.failures + 1
            &&& others_kept(p, turn.proxy, attempt, clock.instant)
            &&& awaits is Answer ==> others_unchanged(p, turn.proxy, attempt) && turn.action == (
            ActionView::Sleep { millis: 50 })
            &&& turn.persist <==> p.store is Some && before.failures >= 2
            &&& !turn.persist ==> turn.proxy.store == p.store
            &&& turn.persist ==> turn.proxy.store->0.contains_key(before.key())
                && turn.proxy.store->0[before.key()].unavailable_until == clock.unix + 3 * 60 * 60
        }),
{
    lemma_concerned_is_valid(p, exchange, attempt, awaits, event);
    lemma_place_in_range(p, attempt);
    let failed = p.after_failure(attempt, clock);
    lemma_marks_keep_shape(p, attempt, clock);
    lemma_shape_keeps_attempts(p, failed, attempt, Await::Answer);
    lemma_search_passes_by(failed, attempt, clock.instant);
    if let ExchangeView::Looking { lookup: l } = exchange {
        if let EventView::Target { target, news } = event {
            let step = exchange::target_looked(p, attempt, news, clock);
            assert(exchange::advanced(p, exchange, event, clock) == exchange::gone_on(
                l,
                target,
                step,
            ));
            if awaits is Answer {
                assert(l.with_leg(target, step.leg).legs[target] is Asking);
            }
        }
    }
}

} // verus!
