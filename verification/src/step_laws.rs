//! What each step of a request does, put in plain terms: which endpoint is concerned, what becomes of it,
//! what is to be done next, and what the client is told.

use crate::chain;
use crate::chain::ChainView;
use crate::endpoint;
use crate::endpoint::EndpointView;
use crate::exchange;
use crate::exchange::Action;
use crate::exchange::ActionView;
use crate::exchange::Attempt;
use crate::exchange::AttemptView;
use crate::exchange::Await;
use crate::exchange::Event;
use crate::exchange::EventView;
use crate::exchange::Exchange;
use crate::exchange::ExchangeView;
use crate::exchange::Inquiry;
use crate::exchange::InquiryView;
use crate::exchange::Leg;
use crate::exchange::LegView;
use crate::exchange::LookupView;
use crate::exchange::News;
use crate::exchange::NewsView;
use crate::exchange::ProxyView;
use crate::exchange::Turn;
use crate::exchange::TurnView;
use crate::health;
use crate::health::Clock;
use crate::health::HealthEntry;
use crate::json;
use crate::json::Tree;
use crate::lookup;
use crate::proxy;
use crate::text;
use vstd::prelude::*;

verus! {

/// The proxy with another state of one endpoint of one chain.
pub open spec fn replaced(p: ProxyView, c: int, i: int, e: EndpointView) -> ProxyView {
    ProxyView {
        chains: p.chains.update(
            c,
            (
                p.chains[c].0,
                ChainView {
                    endpoints: p.chains[c].1.endpoints.update(i, e),
                    current_index: p.chains[c].1.current_index,
                },
            ),
        ),
        auth_token: p.auth_token,
        store: p.store,
        verbose: p.verbose,
        request_timeout: p.request_timeout,
    }
}

/// The proxy with another store.
pub open spec fn with_store(
    p: ProxyView,
    store: Option<Map<Seq<char>, HealthEntry>>,
) -> ProxyView {
    ProxyView {
        chains: p.chains,
        auth_token: p.auth_token,
        store,
        verbose: p.verbose,
        request_timeout: p.request_timeout,
    }
}

/// The step on news of a document that stands with an endpoint.
pub open spec fn on_news(
    p: ProxyView,
    a: AttemptView,
    awaits: Await,
    news: NewsView,
    clock: Clock,
) -> TurnView {
    exchange::advanced(
        p,
        ExchangeView::Forwarding { attempt: a, awaits },
        EventView::News(news),
        clock,
    )
}

/// A document whose endpoint answers with a status from 200 to 299 has the body of that response read
/// next, at whatever place of the pass it stands, and nothing else changes.
pub proof fn law_a_successful_status_has_its_body_read(
    p: ProxyView,
    a: AttemptView,
    awaits: Await,
    status: u16,
    clock: Clock,
)
    requires
        200 <= status <= 299,
    ensures
        on_news(p, a, awaits, NewsView::Answered(status), clock) == (TurnView {
            proxy: p,
            exchange: ExchangeView::Forwarding { attempt: a, awaits: Await::Body },
            action: ActionView::ReadReply,
            persist: false,
        }),
{
}

/// A document whose endpoint asks for fewer requests leaves it to rest for a minute and goes on behind
/// it, after a pause. Nothing is counted and nothing is kept.
pub proof fn law_a_call_for_fewer_requests_rests_the_endpoint(
    p: ProxyView,
    a: AttemptView,
    awaits: Await,
    clock: Clock,
)
    ensures
        ({
            let n = p.chains[a.chain].1.endpoints.len() as int;
            let i = (a.start + a.offset) % n;
            let e = p.chains[a.chain].1.endpoints[i];
            on_news(p, a, awaits, NewsView::Answered(429), clock) == (TurnView {
                proxy: replaced(
                    p,
                    a.chain,
                    i,
                    EndpointView {
                        chain_id: e.chain_id,
                        url: e.url,
                        failures: e.failures,
                        unavailable_until: Some((clock.instant + 60_000_000_000) as nat),
                    },
                ),
                exchange: ExchangeView::Forwarding {
                    attempt: AttemptView {
                        chain: a.chain,
                        payload: a.payload,
                        start: a.start,
                        offset: a.offset + 1,
                    },
                    awaits: Await::Wake,
                },
                action: ActionView::Sleep { millis: 200 },
                persist: false,
            })
        }),
{
}

/// Whether news say that an endpoint has failed before a body was read: there is no response, or one with
/// a status that is neither from 200 to 299 nor 429.
pub open spec fn fails(news: NewsView) -> bool {
    match news {
        NewsView::Unreachable => true,
        NewsView::Answered(status) => !(200 <= status <= 299) && status != 429,
        _ => false,
    }
}

/// The proxy after one more failure of an endpoint: one more is counted, and the third or a later one
/// makes it rest for three hours and be kept as dead.
pub open spec fn counted_against(p: ProxyView, c: int, i: int, clock: Clock) -> ProxyView {
    let e = p.chains[c].1.endpoints[i];
    let dead = e.failures >= 2;
    with_store(
        replaced(
            p,
            c,
            i,
            EndpointView {
                chain_id: e.chain_id,
                url: e.url,
                failures: e.failures + 1,
                unavailable_until: if dead {
                    Some((clock.instant + 10_800_000_000_000) as nat)
                } else {
                    e.unavailable_until
                },
            },
        ),
        if dead && p.store is Some {
            Some(
                p.store->0.insert(
                    e.chain_id + seq!['\n'] + e.url,
                    HealthEntry {
                        chain_id: e.chain_id,
                        url: e.url,
                        reason: seq!['d', 'e', 'a', 'd'],
                        unavailable_until: (clock.unix + 10_800) as u64,
                    },
                ),
            )
        } else {
            p.store
        },
    )
}

/// A document whose endpoint fails has that counted against the endpoint and goes on behind it, after a
/// pause. The store is to be written exactly when the endpoint is kept as dead.
pub proof fn law_a_failure_is_counted_and_passed_by(
    p: ProxyView,
    a: AttemptView,
    awaits: Await,
    news: NewsView,
    clock: Clock,
)
    requires
        fails(news),
        clock.unix + 10_800 <= u64::MAX,
    ensures
        ({
            let n = p.chains[a.chain].1.endpoints.len() as int;
            let i = (a.start + a.offset) % n;
            on_news(p, a, awaits, news, clock) == (TurnView {
                proxy: counted_against(p, a.chain, i, clock),
                exchange: ExchangeView::Forwarding {
                    attempt: AttemptView {
                        chain: a.chain,
                        payload: a.payload,
                        start: a.start,
                        offset: a.offset + 1,
                    },
                    awaits: Await::Wake,
                },
                action: ActionView::Sleep { millis: 50 },
                persist: p.store is Some && p.chains[a.chain].1.endpoints[i].failures >= 2,
            })
        }),
{
    let n = p.chains[a.chain].1.endpoints.len() as int;
    let e = p.chains[a.chain].1.endpoints[(a.start + a.offset) % n];
    if let Some(entries) = p.store {
        endpoint::law_what_is_kept_of_an_endpoint(entries, e, clock.unix);
    }
}

/// A document whose endpoint's body could not be read has a failure counted against the endpoint, as if
/// there had been no response, and then at once does what it would do behind the endpoint after a pause.
pub proof fn law_an_unreadable_body_is_a_failure_without_a_pause(
    p: ProxyView,
    a: AttemptView,
    clock: Clock,
)
    ensures
        ({
            let failed = on_news(p, a, Await::Answer, NewsView::Unreachable, clock);
            let next = AttemptView {
                chain: a.chain,
                payload: a.payload,
                start: a.start,
                offset: a.offset + 1,
            };
            let resumed = on_news(failed.proxy, next, Await::Wake, NewsView::Woke, clock);
            on_news(p, a, Await::Body, NewsView::ReplyBody(None), clock) == (TurnView {
                proxy: resumed.proxy,
                exchange: resumed.exchange,
                action: resumed.action,
                persist: failed.persist,
            })
        }),
{
}

/// A document whose endpoint's body is read is answered with that body, byte for byte, and status 200.
/// Nothing is counted against the endpoint any more, and nothing is kept of it; the store is to be
/// written exactly when it held the endpoint.
pub proof fn law_a_body_is_handed_to_the_client(
    p: ProxyView,
    a: AttemptView,
    awaits: Await,
    body: Seq<u8>,
    clock: Clock,
)
    ensures
        ({
            let n = p.chains[a.chain].1.endpoints.len() as int;
            let i = (a.start + a.offset) % n;
            let e = p.chains[a.chain].1.endpoints[i];
            let key = e.chain_id + seq!['\n'] + e.url;
            on_news(p, a, awaits, NewsView::ReplyBody(Some(body)), clock) == (TurnView {
                proxy: with_store(
                    replaced(
                        p,
                        a.chain,
                        i,
                        EndpointView {
                            chain_id: e.chain_id,
                            url: e.url,
                            failures: 0,
                            unavailable_until: None,
                        },
                    ),
                    if p.store is Some {
                        Some(p.store->0.remove(key))
                    } else {
                        None
                    },
                ),
                exchange: ExchangeView::Finished,
                action: ActionView::Reply { status: 200, body },
                persist: p.store is Some && p.store->0.contains_key(key),
            })
        }),
{
    let n = p.chains[a.chain].1.endpoints.len() as int;
    let e = p.chains[a.chain].1.endpoints[(a.start + a.offset) % n];
    health::law_a_key_is_chain_and_address(e.chain_id, e.url);
}

/// Whether an endpoint is the first of a pass, from an offset on, that is not resting.
pub open spec fn is_next(
    endpoints: Seq<EndpointView>,
    start: int,
    from: int,
    k: int,
    now: u64,
) -> bool {
    &&& from <= k < endpoints.len()
    &&& !chain::rests(endpoints[(start + k) % (endpoints.len() as int)], now)
    &&& forall|j: int|
        from <= j < k ==> chain::rests(
            endpoints[#[trigger] ((start + j) % (endpoints.len() as int))],
            now,
        )
}

/// Whether all endpoints of a pass, from an offset on, are resting.
pub open spec fn none_left(
    endpoints: Seq<EndpointView>,
    start: int,
    from: int,
    now: u64,
) -> bool {
    forall|j: int|
        from <= j < endpoints.len() ==> chain::rests(
            endpoints[#[trigger] ((start + j) % (endpoints.len() as int))],
            now,
        )
}

/// An endpoint whose health was asked for: a rest that is over is forgotten with the failures.
pub open spec fn seen_healthy(e: EndpointView) -> EndpointView {
    if e.unavailable_until is Some {
        EndpointView {
            chain_id: e.chain_id,
            url: e.url,
            failures: 0,
            unavailable_until: None,
        }
    } else {
        e
    }
}

proof fn lemma_next(endpoints: Seq<EndpointView>, start: int, from: int, k: int, now: u64)
    requires
        0 <= from,
        is_next(endpoints, start, from, k, now),
    ensures
        chain::next_healthy(endpoints, start, from, now) == Some(k),
    decreases endpoints.len() - from,
{
    let n = endpoints.len() as int;
    chain::law_the_next_healthy_endpoint_is_the_first(endpoints, start, from, now);
    match chain::next_healthy(endpoints, start, from, now) {
        Some(m) => {
            if m < k {
                assert(chain::rests(endpoints[(start + m) % n], now));
            }
            if k < m {
                assert(chain::rests(endpoints[(start + k) % n], now));
            }
        },
        None => {
            assert(chain::rests(endpoints[(start + k) % n], now));
        },
    }
}

proof fn lemma_none_left(endpoints: Seq<EndpointView>, start: int, from: int, now: u64)
    requires
        0 <= from,
        none_left(endpoints, start, from, now),
    ensures
        chain::next_healthy(endpoints, start, from, now) is None,
{
    let n = endpoints.len() as int;
    chain::law_the_next_healthy_endpoint_is_the_first(endpoints, start, from, now);
    if let Some(m) = chain::next_healthy(endpoints, start, from, now) {
        assert(chain::rests(endpoints[(start + m) % n], now));
    }
}

/// A document that goes on is sent, whole, to the first endpoint of what is left of the pass that is not
/// resting. No endpoint is touched but that one, whose rest, if it had one, is forgotten. Where all that
/// are left are resting, the next pass begins one place further on, after a pause, and nothing else
/// changes.
pub proof fn law_a_document_goes_to_the_first_that_does_not_rest(
    p: ProxyView,
    a: AttemptView,
    awaits: Await,
    k: int,
    clock: Clock,
)
    requires
        0 <= a.offset,
    ensures
        ({
            let endpoints = p.chains[a.chain].1.endpoints;
            let n = endpoints.len() as int;
            &&& is_next(endpoints, a.start, a.offset, k, clock.instant) ==> ({
                let i = (a.start + k) % n;
                on_news(p, a, awaits, NewsView::Woke, clock) == (TurnView {
                    proxy: replaced(p, a.chain, i, seen_healthy(endpoints[i])),
                    exchange: ExchangeView::Forwarding {
                        attempt: AttemptView {
                            chain: a.chain,
                            payload: a.payload,
                            start: a.start,
                            offset: k,
                        },
                        awaits: Await::Answer,
                    },
                    action: ActionView::Post { url: endpoints[i].url, payload: a.payload },
                    persist: false,
                })
            })
            &&& none_left(endpoints, a.start, a.offset, clock.instant) ==> on_news(
                p,
                a,
                awaits,
                NewsView::Woke,
                clock,
            ) == (TurnView {
                proxy: p,
                exchange: ExchangeView::Forwarding {
                    attempt: AttemptView {
                        chain: a.chain,
                        payload: a.payload,
                        start: (a.start + 1) % n,
                        offset: 0,
                    },
                    awaits: Await::Wake,
                },
                action: ActionView::Sleep { millis: 200 },
                persist: false,
            })
        }),
{
    let endpoints = p.chains[a.chain].1.endpoints;
    if is_next(endpoints, a.start, a.offset, k, clock.instant) {
        lemma_next(endpoints, a.start, a.offset, k, clock.instant);
        endpoint::law_asking_changes_only_a_rest_that_is_over(
            endpoints[(a.start + k) % (endpoints.len() as int)],
            clock.instant,
        );
    }
    if none_left(endpoints, a.start, a.offset, clock.instant) {
        lemma_none_left(endpoints, a.start, a.offset, clock.instant);
    }
}

/// The proxy with the counter of a chain moved on by one.
pub open spec fn counter_moved(p: ProxyView, c: int) -> ProxyView {
    ProxyView {
        chains: p.chains.update(
            c,
            (
                p.chains[c].0,
                ChainView {
                    endpoints: p.chains[c].1.endpoints,
                    current_index: if p.chains[c].1.current_index == usize::MAX {
                        0
                    } else {
                        (p.chains[c].1.current_index + 1) as usize
                    },
                },
            ),
        ),
        auth_token: p.auth_token,
        store: p.store,
        verbose: p.verbose,
        request_timeout: p.request_timeout,
    }
}

/// A document that sets out for a chain starts at the endpoint that the chain's counter points to, moves
/// the counter on by one, and then does what any document does that goes on there.
pub proof fn law_a_document_sets_out_where_the_counter_points(
    p: ProxyView,
    chain: int,
    payload: Seq<char>,
    clock: Clock,
)
    ensures
        exchange::advanced(
            p,
            ExchangeView::Ready { chain, payload },
            EventView::Proceed,
            clock,
        ) == on_news(
            counter_moved(p, chain),
            AttemptView {
                chain,
                payload,
                start: p.chains[chain].1.current_index as int % (
                p.chains[chain].1.endpoints.len() as int),
                offset: 0,
            },
            Await::Wake,
            NewsView::Woke,
            clock,
        ),
{
}

/// A step that ends a request with a status and a line of text, and leaves the proxy as it is.
pub open spec fn refused(p: ProxyView, status: u16, line: Seq<char>) -> TurnView {
    TurnView {
        proxy: p,
        exchange: ExchangeView::Finished,
        action: ActionView::Reply { status, body: vstd::utf8::encode_utf8(line) },
        persist: false,
    }
}

/// The step on the body of a request to a path with a first segment.
pub open spec fn on_body(
    p: ProxyView,
    segment: Seq<char>,
    body: Option<Seq<u8>>,
    clock: Clock,
) -> TurnView {
    exchange::advanced(p, ExchangeView::Reading { segment }, EventView::Body(body), clock)
}

/// Whether a chain is the first of the proxy that has a name.
pub open spec fn is_named(p: ProxyView, name: Seq<char>, c: int) -> bool {
    &&& 0 <= c < p.chains.len()
    &&& p.chains[c].0 == name
    &&& forall|d: int| 0 <= d < c ==> (#[trigger] p.chains[d]).0 != name
}

/// Whether no chain of the proxy has a name.
pub open spec fn is_unnamed(p: ProxyView, name: Seq<char>) -> bool {
    forall|d: int| 0 <= d < p.chains.len() ==> (#[trigger] p.chains[d]).0 != name
}

proof fn lemma_named(p: ProxyView, name: Seq<char>, c: int, from: int)
    requires
        0 <= from,
    ensures
        is_named(p, name, c) && from <= c ==> exchange::chain_index(p.chains, name, from) == Some(c),
        is_unnamed(p, name) ==> exchange::chain_index(p.chains, name, from) is None,
    decreases p.chains.len() - from,
{
    if from < p.chains.len() {
        lemma_named(p, name, c, from + 1);
        if is_named(p, name, c) && from < c {
            assert(p.chains[from].0 != name);
        }
        if is_unnamed(p, name) {
            assert(p.chains[from].0 != name);
        }
    }
}

/// A chain is found by its name: the first that has it, and none where no chain does.
pub proof fn law_chains_are_found_by_name(p: ProxyView, name: Seq<char>, c: int)
    ensures
        is_named(p, name, c) ==> p.chain_named(name) == Some(c),
        is_unnamed(p, name) ==> p.chain_named(name) is None,
        p.chain_names().len() == p.chains.len(),
        0 <= c < p.chains.len() ==> p.chain_names()[c] == p.chains[c].0 && p.endpoints(c)
            == p.chains[c].1.endpoints,
{
    lemma_named(p, name, c, 0);
}

/// A request whose path names a chain, and whose body spells a document, has that document passed on to
/// that chain: all of it, as it is written, whatever it holds. Nothing else changes.
pub proof fn law_the_whole_document_is_passed_on(
    p: ProxyView,
    segment: Seq<char>,
    body: Seq<u8>,
    document: Tree,
    c: int,
    clock: Clock,
)
    requires
        segment != "sr_contract_chains"@,
        is_named(p, segment, c),
        body.len() > 0,
        json::parsed_json(body) == Ok::<Tree, Seq<char>>(document),
    ensures
        on_body(p, segment, Some(body), clock) == (TurnView {
            proxy: p,
            exchange: ExchangeView::Ready { chain: c, payload: json::rendered_json(document) },
            action: ActionView::Proceed,
            persist: false,
        }),
{
    lemma_named(p, segment, c, 0);
}

/// A request is refused: with status 400 when its body cannot be read, when it is empty, and when it
/// spells no document; and with status 404 when its path names neither a chain nor the lookup.
pub proof fn law_what_is_refused(
    p: ProxyView,
    segment: Seq<char>,
    body: Seq<u8>,
    c: int,
    clock: Clock,
)
    ensures
        on_body(p, segment, None, clock) == refused(p, 400, "Invalid request body"@),
        segment != "sr_contract_chains"@ && is_unnamed(p, segment) ==> on_body(
            p,
            segment,
            Some(body),
            clock,
        ) == refused(p, 404, "Chain not supported"@),
        segment == "sr_contract_chains"@ || is_named(p, segment, c) ==> {
            &&& body.len() == 0 ==> on_body(p, segment, Some(body), clock) == refused(
                p,
                400,
                "Request body cannot be empty"@,
            )
            &&& body.len() > 0 && json::parsed_json(body) is Err ==> on_body(
                p,
                segment,
                Some(body),
                clock,
            ) == refused(p, 400, "Invalid JSON in request body"@)
        },
{
    lemma_named(p, segment, c, 0);
}

/// A request begins with its token: without the one that is required it is refused with status 401,
/// whatever its path. With it, or where none is required, its body is read for the first segment of its
/// path, and it is refused with status 400 where the path has none. Nothing changes.
pub proof fn law_how_a_request_begins(
    p: ProxyView,
    presented: Option<Seq<char>>,
    path: Seq<char>,
)
    ensures
        p.auth_token is Some && presented != p.auth_token ==> exchange::admitted(p, presented, path)
            == refused(p, 401, "Missing or invalid auth token"@),
        p.auth_token is None || presented == p.auth_token ==> {
            &&& text::first_segment_of(path) is None ==> exchange::admitted(p, presented, path)
                == refused(p, 400, "Missing chain ID in path. Use /<chain-id>"@)
            &&& text::first_segment_of(path) matches Some(segment) ==> exchange::admitted(
                p,
                presented,
                path,
            ) == (TurnView {
                proxy: p,
                exchange: ExchangeView::Reading { segment },
                action: ActionView::ReadBody,
                persist: false,
            })
        },
{
}

/// A request that is made without a client has its document passed on as a client's is, when the chain
/// has endpoints; else it is told what is missing.
pub proof fn law_a_request_without_a_client_is_passed_on_alike(
    p: ProxyView,
    name: Seq<char>,
    body: Seq<u8>,
    document: Tree,
    c: int,
    clock: Clock,
)
    requires
        name != "sr_contract_chains"@,
        body.len() > 0,
        json::parsed_json(body) == Ok::<Tree, Seq<char>>(document),
    ensures
        is_named(p, name, c) && p.chains[c].1.endpoints.len() > 0 ==> exchange::requested(
            p,
            name,
            document,
        ) == Ok::<TurnView, Seq<char>>(on_body(p, name, Some(body), clock)),
        is_named(p, name, c) && p.chains[c].1.endpoints.len() == 0 ==> exchange::requested(
            p,
            name,
            document,
        ) == Err::<TurnView, Seq<char>>("chain "@ + name + " has no endpoints configured"@),
        is_unnamed(p, name) ==> exchange::requested(p, name, document) == Err::<
            TurnView,
            Seq<char>,
        >("chain "@ + name + " not supported"@),
{
    lemma_named(p, name, c, 0);
}

/// The step on news of one target of a lookup.
pub open spec fn on_target(
    p: ProxyView,
    l: LookupView,
    target: int,
    news: NewsView,
    clock: Clock,
) -> TurnView {
    exchange::advanced(
        p,
        ExchangeView::Looking { lookup: l },
        EventView::Target { target, news },
        clock,
    )
}

/// The lookup after one of its targets has come to a state.
pub open spec fn leg_changed(l: LookupView, target: int, leg: LegView) -> LookupView {
    LookupView {
        id: l.id,
        address: l.address,
        targets: l.targets,
        legs: l.legs.update(target, leg),
    }
}

/// Whether a target of a lookup is being asked.
pub open spec fn is_asking(l: LookupView, i: int) -> bool {
    0 <= i < l.legs.len() && l.legs[i] is Asking
}

/// A step that leaves one target of a lookup in a state, with something to be done for it: as long as any
/// target is being asked, that is all; when none is, the client is answered with what was found.
pub open spec fn leaves_target(
    turn: TurnView,
    l: LookupView,
    target: int,
    leg: LegView,
    action: ActionView,
) -> bool {
    let next = leg_changed(l, target, leg);
    if exists|i: int| is_asking(next, i) {
        &&& turn.exchange == (ExchangeView::Looking { lookup: next })
        &&& turn.action == action
    } else {
        &&& turn.exchange == ExchangeView::Finished
        &&& turn.action == (ActionView::Reply {
            status: 200,
            body: vstd::utf8::encode_utf8(
                json::rendered_json(
                    lookup::lookup_reply(
                        l.id,
                        l.address,
                        exchange::records_of(next.targets, next.legs),
                    ),
                ),
            ),
        })
    }
}

proof fn lemma_leaves_target(
    p: ProxyView,
    l: LookupView,
    target: int,
    news: NewsView,
    clock: Clock,
    a: AttemptView,
    awaits: Await,
)
    requires
        0 <= target < l.legs.len(),
        l.legs[target] == (LegView::Asking { attempt: a, awaits }),
    ensures
        ({
            let step = exchange::target_looked(p, a, news, clock);
            let turn = on_target(p, l, target, news, clock);
            &&& leaves_target(turn, l, target, step.leg, step.action)
            &&& turn.proxy == step.proxy
            &&& turn.persist == step.persist
        }),
{
    let step = exchange::target_looked(p, a, news, clock);
    let next = l.with_leg(target, step.leg);
    assert(next == leg_changed(l, target, step.leg));
    if next.settled() {
        assert forall|i: int| !is_asking(next, i) by {
            if 0 <= i < next.legs.len() {
                assert(next.legs[i] is Settled);
            }
        }
    } else {
        let i = choose|i: int| 0 <= i < next.legs.len() && !((#[trigger] next.legs[i]) is Settled);
        assert(is_asking(next, i));
    }
}

/// What an endpoint does has the same effect on the health of endpoints, and on what is kept, when it is
/// asked the question of a lookup as when it is sent a document: no response, a status, a body that
/// cannot be read, and going on after a pause. A body with code has the effect of a body, one with an
/// error has none, and one with neither has that of a body that cannot be read.
pub proof fn law_lookups_treat_endpoints_as_documents_do(
    p: ProxyView,
    l: LookupView,
    target: int,
    a: AttemptView,
    awaits: Await,
    news: NewsView,
    body: Seq<u8>,
    clock: Clock,
)
    requires
        0 <= target < l.legs.len(),
        l.legs[target] == (LegView::Asking { attempt: a, awaits }),
    ensures
        !(news matches NewsView::ReplyBody(Some(_))) ==> {
            &&& on_target(p, l, target, news, clock).proxy == on_news(p, a, awaits, news, clock).proxy
            &&& on_target(p, l, target, news, clock).persist == on_news(
                p,
                a,
                awaits,
                news,
                clock,
            ).persist
        },
        ({
            let turn = on_target(p, l, target, NewsView::ReplyBody(Some(body)), clock);
            let read = on_news(p, a, awaits, NewsView::ReplyBody(Some(body)), clock);
            let unread = on_news(p, a, awaits, NewsView::ReplyBody(None), clock);
            match lookup::code_answer(body) {
                lookup::CodeAnswerView::Code(_) => turn.proxy == read.proxy && turn.persist
                    == read.persist,
                lookup::CodeAnswerView::Refused(_) => turn.proxy == p && !turn.persist,
                lookup::CodeAnswerView::Unusable => turn.proxy == unread.proxy && turn.persist
                    == unread.persist,
            }
        }),
{
    lemma_leaves_target(p, l, target, news, clock, a, awaits);
    lemma_leaves_target(p, l, target, NewsView::ReplyBody(Some(body)), clock, a, awaits);
    lemma_found_nothing_changes_nothing(p, a, clock.instant);
    let moved = AttemptView {
        chain: a.chain,
        payload: a.payload,
        start: a.start,
        offset: a.offset + 1,
    };
    assert(moved == a.moved_on());
    lemma_found_nothing_changes_nothing(p.after_failure(a, clock), moved, clock.instant);
}

proof fn lemma_found_nothing_changes_nothing(p: ProxyView, a: AttemptView, now: u64)
    ensures
        exchange::looked_at(p, a, now).proxy == exchange::sought(p, a, now).proxy,
        !exchange::looked_at(p, a, now).persist,
        !exchange::sought(p, a, now).persist,
{
}

/// What becomes of a target: a status from 200 to 299 has the body read; no response and any other status
/// lead on behind the endpoint after a pause; a body with code settles the target with the record of that
/// code, and one with an error with the record of that error.
pub proof fn law_what_becomes_of_a_target(
    p: ProxyView,
    l: LookupView,
    target: int,
    a: AttemptView,
    awaits: Await,
    status: u16,
    body: Seq<u8>,
    clock: Clock,
)
    requires
        0 <= target < l.legs.len(),
        l.legs[target] == (LegView::Asking { attempt: a, awaits }),
    ensures
        ({
            let behind = AttemptView {
                chain: a.chain,
                payload: a.payload,
                start: a.start,
                offset: a.offset + 1,
            };
            let answered = on_target(p, l, target, NewsView::Answered(status), clock);
            let told = on_target(p, l, target, NewsView::ReplyBody(Some(body)), clock);
            &&& 200 <= status <= 299 ==> leaves_target(
                answered,
                l,
                target,
                LegView::Asking { attempt: a, awaits: Await::Body },
                ActionView::ReadReply,
            )
            &&& !(200 <= status <= 299) ==> leaves_target(
                answered,
                l,
                target,
                LegView::Asking { attempt: behind, awaits: Await::Wake },
                ActionView::Sleep { millis: 50 },
            )
            &&& leaves_target(
                on_target(p, l, target, NewsView::Unreachable, clock),
                l,
                target,
                LegView::Asking { attempt: behind, awaits: Await::Wake },
                ActionView::Sleep { millis: 50 },
            )
            &&& lookup::code_answer(body) matches lookup::CodeAnswerView::Code(code)
                ==> leaves_target(
                told,
                l,
                target,
                LegView::Settled { record: lookup::code_record(code) },
                ActionView::AwaitOthers,
            )
            &&& lookup::code_answer(body) matches lookup::CodeAnswerView::Refused(message)
                ==> leaves_target(
                told,
                l,
                target,
                LegView::Settled { record: lookup::failure_record(message) },
                ActionView::AwaitOthers,
            )
        }),
{
    lemma_leaves_target(p, l, target, NewsView::Answered(status), clock, a, awaits);
    lemma_leaves_target(p, l, target, NewsView::Unreachable, clock, a, awaits);
    lemma_leaves_target(p, l, target, NewsView::ReplyBody(Some(body)), clock, a, awaits);
}

/// A target that goes on has its question sent to the first endpoint of what is left of its one pass that
/// is not resting. Where all that are left are resting, it has failed.
pub proof fn law_a_target_goes_to_the_first_that_does_not_rest(
    p: ProxyView,
    l: LookupView,
    target: int,
    a: AttemptView,
    awaits: Await,
    k: int,
    clock: Clock,
)
    requires
        0 <= target < l.legs.len(),
        l.legs[target] == (LegView::Asking { attempt: a, awaits }),
        0 <= a.offset,
    ensures
        ({
            let endpoints = p.chains[a.chain].1.endpoints;
            let turn = on_target(p, l, target, NewsView::Woke, clock);
            &&& is_next(endpoints, a.start, a.offset, k, clock.instant) ==> leaves_target(
                turn,
                l,
                target,
                LegView::Asking {
                    attempt: AttemptView {
                        chain: a.chain,
                        payload: a.payload,
                        start: a.start,
                        offset: k,
                    },
                    awaits: Await::Answer,
                },
                ActionView::Post {
                    url: endpoints[(a.start + k) % (endpoints.len() as int)].url,
                    payload: a.payload,
                },
            )
            &&& none_left(endpoints, a.start, a.offset, clock.instant) ==> leaves_target(
                turn,
                l,
                target,
                LegView::Settled { record: lookup::failure_record("all endpoints failed"@) },
                ActionView::AwaitOthers,
            )
        }),
{
    let endpoints = p.chains[a.chain].1.endpoints;
    lemma_leaves_target(p, l, target, NewsView::Woke, clock, a, awaits);
    if is_next(endpoints, a.start, a.offset, k, clock.instant) {
        lemma_next(endpoints, a.start, a.offset, k, clock.instant);
    }
    if none_left(endpoints, a.start, a.offset, clock.instant) {
        lemma_none_left(endpoints, a.start, a.offset, clock.instant);
    }
}

/// A target whose endpoint's body is of no use, or could not be read, does at once what it would do behind
/// the endpoint after a pause, with the failure counted.
pub proof fn law_a_useless_reply_is_passed_by_without_a_pause(
    p: ProxyView,
    l: LookupView,
    target: int,
    a: AttemptView,
    awaits: Await,
    body: Seq<u8>,
    clock: Clock,
)
    requires
        0 <= target < l.legs.len(),
        l.legs[target] == (LegView::Asking { attempt: a, awaits }),
        lookup::code_answer(body) == lookup::CodeAnswerView::Unusable,
    ensures
        ({
            let failed = on_news(p, a, Await::Answer, NewsView::Unreachable, clock).proxy;
            let behind = LegView::Asking {
                attempt: AttemptView {
                    chain: a.chain,
                    payload: a.payload,
                    start: a.start,
                    offset: a.offset + 1,
                },
                awaits: Await::Wake,
            };
            let resumed = on_target(
                failed,
                leg_changed(l, target, behind),
                target,
                NewsView::Woke,
                clock,
            );
            let told = on_target(p, l, target, NewsView::ReplyBody(Some(body)), clock);
            let unread = on_target(p, l, target, NewsView::ReplyBody(None), clock);
            &&& told.exchange == resumed.exchange
            &&& told.action == resumed.action
            &&& unread.exchange == resumed.exchange
            &&& unread.action == resumed.action
        }),
{
    let behind = LegView::Asking { attempt: a.moved_on(), awaits: Await::Wake };
    let waiting = leg_changed(l, target, behind);
    let failed = on_news(p, a, Await::Answer, NewsView::Unreachable, clock).proxy;
    lemma_leaves_target(
        failed,
        waiting,
        target,
        NewsView::Woke,
        clock,
        a.moved_on(),
        Await::Wake,
    );
    let step = exchange::looked_at(failed, a.moved_on(), clock.instant);
    assert(failed == p.after_failure(a, clock));
    assert(waiting.with_leg(target, step.leg) == l.with_leg(target, step.leg)) by {
        assert(waiting.legs.update(target, step.leg) =~= l.legs.update(target, step.leg));
    }
    lemma_leaves_target(p, l, target, NewsView::ReplyBody(Some(body)), clock, a, awaits);
    lemma_leaves_target(p, l, target, NewsView::ReplyBody(None), clock, a, awaits);
}

/// The question sets out for a target as a document sets out for a chain: where the chain's counter
/// points, which moves on by one, and from there to the first endpoint that is not resting. A target that
/// is no chain, or a chain without endpoints, is settled at once and changes nothing.
pub proof fn law_a_question_sets_out_as_a_document_does(
    p: ProxyView,
    target: Seq<char>,
    address: Seq<char>,
    c: int,
    clock: Clock,
)
    ensures
        ({
            let step = exchange::asked(p, target, address, clock.instant);
            &&& !step.persist
            &&& is_unnamed(p, target) ==> step.proxy == p && step.leg == (LegView::Settled {
                record: lookup::failure_record("chain not configured"@),
            })
            &&& is_named(p, target, c) && p.chains[c].1.endpoints.len() == 0 ==> step.proxy == p
                && step.leg == (LegView::Settled {
                record: lookup::failure_record("no endpoints configured"@),
            })
            &&& is_named(p, target, c) && p.chains[c].1.endpoints.len() > 0 ==> ({
                let payload = json::rendered_json(lookup::code_question(address));
                let sent = exchange::advanced(
                    p,
                    ExchangeView::Ready { chain: c, payload },
                    EventView::Proceed,
                    clock,
                );
                &&& step.proxy == sent.proxy
                &&& (match sent.exchange {
                    ExchangeView::Forwarding { attempt, awaits: Await::Answer } => {
                        &&& step.leg == (LegView::Asking { attempt, awaits: Await::Answer })
                        &&& step.action == sent.action
                    },
                    _ => step.leg == (LegView::Settled {
                        record: lookup::failure_record("all endpoints failed"@),
                    }),
                })
            })
            &&& step.leg is Settled ==> step.action == ActionView::AwaitOthers
        }),
{
    lemma_named(p, target, c, 0);
}

/// The targets of a lookup set out one behind the other, all in the same step: one more target sets out
/// as it would alone where those before it have left the proxy, and adds its own question, if it has one
/// to be sent.
pub proof fn law_one_more_target_adds_its_own_question(
    p: ProxyView,
    targets: Seq<Seq<char>>,
    target: Seq<char>,
    address: Seq<char>,
    now: u64,
)
    ensures
        ({
            let before = exchange::all_asked(p, targets, address, now);
            let all = exchange::all_asked(p, targets.push(target), address, now);
            let step = exchange::asked(before.proxy, target, address, now);
            let none = exchange::all_asked(p, Seq::empty(), address, now);
            &&& none.proxy == p
            &&& none.legs.len() == 0
            &&& none.inquiries.len() == 0
            &&& all.proxy == step.proxy
            &&& all.legs == before.legs.push(step.leg)
            &&& step.action matches ActionView::Post { url, payload } ==> all.inquiries
                == before.inquiries.push(
                InquiryView { target: targets.len() as int, url, payload },
            )
            &&& !(step.action is Post) ==> all.inquiries == before.inquiries
        }),
{
    assert(targets.push(target).drop_last() =~= targets);
}

/// A lookup looks at the chains that the request lists, in that order, if it lists any, and else at every
/// chain of the proxy.
pub proof fn law_which_chains_are_looked_at(
    p: ProxyView,
    list: Seq<Seq<char>>,
    c: int,
)
    ensures
        list.len() > 0 ==> exchange::targets_of(p, Some(list)) == list,
        exchange::targets_of(p, Some(Seq::empty())) == exchange::targets_of(p, None),
        exchange::targets_of(p, None).len() == p.chains.len(),
        0 <= c < p.chains.len() ==> exchange::targets_of(p, None)[c] == p.chains[c].0,
{
}

/// A lookup begins with all of its targets in one step: their questions are to be sent, all of them, or
/// the client is answered where none is being asked. It is refused with status 400, its own id and the
/// reason where it asks for nothing.
pub proof fn law_how_a_lookup_begins(
    p: ProxyView,
    body: Seq<u8>,
    request: Tree,
    clock: Clock,
)
    requires
        body.len() > 0,
        json::parsed_json(body) == Ok::<Tree, Seq<char>>(request),
    ensures
        ({
            let turn = on_body(p, "sr_contract_chains"@, Some(body), clock);
            match lookup::contract_params(request) {
                Ok((address, wanted)) => {
                    let targets = exchange::targets_of(p, wanted);
                    let all = exchange::all_asked(p, targets, address, clock.instant);
                    let l = LookupView {
                        id: request.member("id"@),
                        address,
                        targets,
                        legs: all.legs,
                    };
                    &&& turn.proxy == all.proxy
                    &&& !turn.persist
                    &&& (exists|i: int| is_asking(l, i)) ==> turn.exchange == (
                    ExchangeView::Looking { lookup: l }) && turn.action == (ActionView::Ask {
                        inquiries: all.inquiries,
                    })
                    &&& !(exists|i: int| is_asking(l, i)) ==> turn.exchange
                        == ExchangeView::Finished && turn.action == (ActionView::Reply {
                        status: 200,
                        body: vstd::utf8::encode_utf8(
                            json::rendered_json(
                                lookup::lookup_reply(
                                    l.id,
                                    l.address,
                                    exchange::records_of(l.targets, l.legs),
                                ),
                            ),
                        ),
                    })
                },
                Err(message) => turn == refused(
                    p,
                    400,
                    json::rendered_json(lookup::refusal_reply(request.member("id"@), message)),
                ),
            }
        }),
{
    if let Ok((address, wanted)) = lookup::contract_params(request) {
        let targets = exchange::targets_of(p, wanted);
        let l = LookupView {
            id: request.member("id"@),
            address,
            targets,
            legs: exchange::all_asked(p, targets, address, clock.instant).legs,
        };
        if l.settled() {
            assert forall|i: int| !is_asking(l, i) by {
                if 0 <= i < l.legs.len() {
                    assert(l.legs[i] is Settled);
                }
            }
        } else {
            let i = choose|i: int| 0 <= i < l.legs.len() && !((#[trigger] l.legs[i]) is Settled);
            assert(is_asking(l, i));
        }
    }
}

/// What was found is gathered target by target: one more target that is settled adds its record under its
/// own name, in place of an earlier one of that name, and one that is not adds nothing.
pub proof fn law_records_are_gathered_target_by_target(
    targets: Seq<Seq<char>>,
    legs: Seq<LegView>,
    leg: LegView,
)
    ensures
        exchange::records_of(targets, Seq::empty()) == Map::<Seq<char>, Tree>::empty(),
        leg matches LegView::Settled { record } ==> exchange::records_of(targets, legs.push(leg))
            == exchange::records_of(targets, legs).insert(targets[legs.len() as int], record),
        leg is Asking ==> exchange::records_of(targets, legs.push(leg)) == exchange::records_of(
            targets,
            legs,
        ),
{
    assert(legs.push(leg).drop_last() =~= legs);
}

/// Whether a request stands among the endpoints of a chain of the proxy, with fewer failures counted
/// against the endpoint it is with than can be counted.
pub open spec fn stands(p: ProxyView, a: AttemptView, awaits: Await) -> bool {
    let n = p.chains[a.chain].1.endpoints.len() as int;
    &&& 0 <= a.chain < p.chains.len()
    &&& 0 <= a.start < n
    &&& 0 <= a.offset
    &&& if awaits is Wake {
        a.offset <= n
    } else {
        &&& a.offset < n
        &&& p.chains[a.chain].1.endpoints[(a.start + a.offset) % n].failures < 0xffff_ffff
    }
}

/// Whether news are of what is waited for.
pub open spec fn is_waited_for(awaits: Await, news: NewsView) -> bool {
    match (awaits, news) {
        (Await::Answer, NewsView::Unreachable) => true,
        (Await::Answer, NewsView::Answered(_)) => true,
        (Await::Body, NewsView::ReplyBody(_)) => true,
        (Await::Wake, NewsView::Woke) => true,
        _ => false,
    }
}

/// A step can be taken when three hours from now can be written down and the event is of what is waited
/// for: a body while one is read, leave to go on for a document whose chain has endpoints, and news of the
/// endpoint that a document or a target is with. Nothing more is asked for, and no request that was
/// answered takes another step.
pub proof fn law_which_steps_can_be_taken(
    p: ProxyView,
    segment: Seq<char>,
    body: Option<Seq<u8>>,
    chain: int,
    payload: Seq<char>,
    a: AttemptView,
    awaits: Await,
    news: NewsView,
    event: EventView,
    clock: Clock,
)
    requires
        clock.unix + 10_800 <= u64::MAX,
    ensures
        exchange::ready(p, ExchangeView::Reading { segment }, EventView::Body(body), clock),
        exchange::ready(p, ExchangeView::Ready { chain, payload }, EventView::Proceed, clock) <==> 0
            <= chain < p.chains.len() && p.chains[chain].1.endpoints.len() > 0,
        exchange::ready(
            p,
            ExchangeView::Forwarding { attempt: a, awaits },
            EventView::News(news),
            clock,
        ) <==> stands(p, a, awaits) && is_waited_for(awaits, news),
        !exchange::ready(p, ExchangeView::Finished, event, clock),
        !(event is News) ==> !exchange::ready(
            p,
            ExchangeView::Forwarding { attempt: a, awaits },
            event,
            clock,
        ),
{
}

/// Whether a target stands among the endpoints of a chain of the proxy, or is settled.
pub open spec fn leg_stands(p: ProxyView, leg: LegView) -> bool {
    match leg {
        LegView::Asking { attempt, awaits } => {
            let n = p.chains[attempt.chain].1.endpoints.len() as int;
            &&& 0 <= attempt.chain < p.chains.len()
            &&& 0 <= attempt.start < n
            &&& 0 <= attempt.offset
            &&& if awaits is Wake {
                attempt.offset <= n
            } else {
                attempt.offset < n
            }
        },
        LegView::Settled { .. } => true,
    }
}

/// A lookup whose targets all stand where the proxy has endpoints can take a step on news of any target
/// that is being asked and that waits for such news.
pub proof fn law_which_steps_a_lookup_can_take(
    p: ProxyView,
    l: LookupView,
    target: int,
    a: AttemptView,
    awaits: Await,
    news: NewsView,
    clock: Clock,
)
    requires
        clock.unix + 10_800 <= u64::MAX,
        l.legs.len() == l.targets.len(),
        forall|i: int| 0 <= i < l.legs.len() ==> leg_stands(p, #[trigger] l.legs[i]),
        0 <= target < l.legs.len(),
    ensures
        l.legs[target] == (LegView::Asking { attempt: a, awaits }) ==> (exchange::ready(
            p,
            ExchangeView::Looking { lookup: l },
            EventView::Target { target, news },
            clock,
        ) <==> stands(p, a, awaits) && is_waited_for(awaits, news)),
        l.legs[target] is Settled ==> !exchange::ready(
            p,
            ExchangeView::Looking { lookup: l },
            EventView::Target { target, news },
            clock,
        ),
{
    let exchange = ExchangeView::Looking { lookup: l };
    assert forall|i: int| 0 <= i < l.legs.len() implies (#[trigger] l.legs[i]).valid(p) by {
        assert(leg_stands(p, l.legs[i]));
    }
    assert(exchange.valid(p));
}

/// An endpoint at the start of the proxy has nothing counted against it, unless its death was kept and is
/// not over: then it rests for as long as is left of it.
pub proof fn law_endpoints_at_the_start(
    entries: Map<Seq<char>, HealthEntry>,
    chain_id: Seq<char>,
    url: Seq<char>,
    clock: Clock,
)
    ensures
        ({
            let key = chain_id + seq!['\n'] + url;
            let fresh = EndpointView { chain_id, url, failures: 0, unavailable_until: None };
            &&& proxy::initial_endpoint(None, chain_id, url, clock) == fresh
            &&& !entries.contains_key(key) || entries[key].unavailable_until <= clock.unix
                ==> proxy::initial_endpoint(Some(entries), chain_id, url, clock) == fresh
            &&& entries.contains_key(key) && clock.unix < entries[key].unavailable_until
                ==> proxy::initial_endpoint(Some(entries), chain_id, url, clock) == (EndpointView {
                chain_id,
                url,
                failures: 3,
                unavailable_until: Some(
                    (clock.instant + (entries[key].unavailable_until - clock.unix)
                        * 1_000_000_000) as nat,
                ),
            })
        }),
{
    health::law_a_key_is_chain_and_address(chain_id, url);
}

/// A proxy starts with the chains of its configuration, each with the endpoints that are listed for it,
/// in order, and with its counter at the first.
pub proof fn law_chains_at_the_start(
    store: Option<Map<Seq<char>, HealthEntry>>,
    names: Seq<Seq<char>>,
    urls: Map<Seq<char>, Seq<Seq<char>>>,
    clock: Clock,
    c: int,
    i: int,
)
    requires
        0 <= c < names.len(),
    ensures
        ({
            let chains = proxy::initial_chains(store, names, urls, clock);
            &&& chains.len() == names.len()
            &&& chains[c].0 == names[c]
            &&& chains[c].1.current_index == 0
            &&& chains[c].1.endpoints.len() == urls[names[c]].len()
            &&& 0 <= i < urls[names[c]].len() ==> chains[c].1.endpoints[i]
                == proxy::initial_endpoint(store, names[c], urls[names[c]][i], clock)
        }),
{
}

/// What is kept at the start is what was kept before and is not over, if anything is to be kept.
pub proof fn law_what_is_kept_at_the_start(
    kept: Map<Seq<char>, HealthEntry>,
    unix: u64,
    key: Seq<char>,
)
    ensures
        proxy::initial_store(None, unix) is None,
        proxy::initial_store(Some(kept), unix) is Some,
        proxy::initial_store(Some(kept), unix)->0.contains_key(key) <==> kept.contains_key(key)
            && unix < kept[key].unavailable_until,
        kept.contains_key(key) && unix < kept[key].unavailable_until ==> proxy::initial_store(
            Some(kept),
            unix,
        )->0[key] == kept[key],
{
}

/// What is to be done is seen as it is.
pub proof fn law_actions_are_seen_as_they_are(action: Action, inquiry: Inquiry)
    ensures
        inquiry@ == (InquiryView {
            target: inquiry.target as int,
            url: inquiry.url@,
            payload: inquiry.payload@,
        }),
        match action {
            Action::ReadBody => action@ == ActionView::ReadBody,
            Action::Proceed => action@ == ActionView::Proceed,
            Action::Post { url, payload } => action@ == (ActionView::Post {
                url: url@,
                payload: payload@,
            }),
            Action::ReadReply => action@ == ActionView::ReadReply,
            Action::Sleep { millis } => action@ == (ActionView::Sleep { millis }),
            Action::Ask { inquiries } => action@ is Ask && action@->inquiries.len()
                == inquiries@.len() && forall|i: int|
                0 <= i < inquiries@.len() ==> (#[trigger] action@->inquiries[i]) == inquiries@[i]@,
            Action::AwaitOthers => action@ == ActionView::AwaitOthers,
            Action::Reply { status, body } => action@ == (ActionView::Reply {
                status,
                body: body@,
            }),
        },
{
}

/// What came of it is seen as it is.
pub proof fn law_events_are_seen_as_they_are(event: Event, news: News)
    ensures
        match event {
            Event::Body(Some(bytes)) => event@ == EventView::Body(Some(bytes@)),
            Event::Body(None) => event@ == EventView::Body(None),
            Event::Proceed => event@ == EventView::Proceed,
            Event::News(n) => event@ == EventView::News(n@),
            Event::Target { target, news: n } => event@ == (EventView::Target {
                target: target as int,
                news: n@,
            }),
        },
        match news {
            News::Unreachable => news@ == NewsView::Unreachable,
            News::Answered(status) => news@ == NewsView::Answered(status),
            News::ReplyBody(Some(bytes)) => news@ == NewsView::ReplyBody(Some(bytes@)),
            News::ReplyBody(None) => news@ == NewsView::ReplyBody(None),
            News::Woke => news@ == NewsView::Woke,
        },
{
}

/// The state of a request is seen as it is.
pub proof fn law_states_are_seen_as_they_are(
    exchange: Exchange,
    attempt: Attempt,
    leg: Leg,
    turn: Turn,
    p: ProxyView,
)
    ensures
        attempt@ == (AttemptView {
            chain: attempt.chain as int,
            payload: attempt.payload@,
            start: attempt.start as int,
            offset: attempt.offset as int,
        }),
        match leg {
            Leg::Asking { attempt: a, awaits } => leg@ == (LegView::Asking { attempt: a@, awaits }),
            Leg::Settled { record } => leg@ == (LegView::Settled { record: record.tree() }),
        },
        match exchange {
            Exchange::Reading { segment } => exchange@ == (ExchangeView::Reading {
                segment: segment@,
            }),
            Exchange::Ready { chain, payload } => exchange@ == (ExchangeView::Ready {
                chain: chain as int,
                payload: payload@,
            }),
            Exchange::Forwarding { attempt: a, awaits } => exchange@ == (ExchangeView::Forwarding {
                attempt: a@,
                awaits,
            }),
            Exchange::Looking { lookup } => {
                &&& exchange@ is Looking
                &&& exchange@->lookup.address == lookup.address@
                &&& lookup.id is None ==> exchange@->lookup.id is None
                &&& lookup.id matches Some(id) ==> exchange@->lookup.id == Some(id.tree())
                &&& exchange@->lookup.targets == text::texts(lookup.targets@)
                &&& exchange@->lookup.legs.len() == lookup.legs@.len()
                &&& forall|i: int|
                    0 <= i < lookup.legs@.len() ==> (#[trigger] exchange@->lookup.legs[i])
                        == lookup.legs@[i]@
            },
            Exchange::Finished => exchange@ == ExchangeView::Finished,
        },
        turn.with(p) == (TurnView {
            proxy: p,
            exchange: turn.exchange@,
            action: turn.action@,
            persist: turn.persist,
        }),
{
}

} // verus!
