//! What holds of a request from its beginning to its end, whatever other requests do in between.

use crate::chain;
use crate::chain::ChainView;
use crate::exchange;
use crate::exchange::ActionView;
use crate::exchange::AttemptView;
use crate::exchange::EventView;
use crate::exchange::ExchangeView;
use crate::exchange::LegView;
use crate::exchange::LookupView;
use crate::exchange::NewsView;
use crate::exchange::ProxyView;
use crate::exchange::TurnView;
use crate::health::Clock;
use crate::json::Tree;
use crate::laws;
use crate::lookup;
use crate::lookup_laws;
use vstd::prelude::*;

verus! {

/// A step that is taken for a request: the state in which it finds the proxy, what came of the last
/// action, and when.
pub struct Step {
    pub proxy: ProxyView,
    pub event: EventView,
    pub clock: Clock,
}

/// Where a request stands after some steps.
pub open spec fn after(first: TurnView, steps: Seq<Step>) -> TurnView
    decreases steps.len(),
{
    if steps.len() == 0 {
        first
    } else {
        let step = steps.last();
        exchange::advanced(
            step.proxy,
            after(first, steps.drop_last()).exchange,
            step.event,
            step.clock,
        )
    }
}

/// Whether the steps can be taken one after another: each can be taken where the one before it left
/// the request, with the proxy as that one left it but for what other requests did to the health of
/// the endpoints.
pub open spec fn possible(first: TurnView, steps: Seq<Step>) -> bool
    decreases steps.len(),
{
    if steps.len() == 0 {
        first.exchange.valid(first.proxy)
    } else {
        let step = steps.last();
        let before = after(first, steps.drop_last());
        &&& possible(first, steps.drop_last())
        &&& laws::same_shape(before.proxy, step.proxy)
        &&& exchange::ready(step.proxy, before.exchange, step.event, step.clock)
    }
}

proof fn lemma_shape_stays(first: TurnView, steps: Seq<Step>)
    requires
        possible(first, steps),
    ensures
        laws::same_shape(first.proxy, after(first, steps).proxy),
        after(first, steps).exchange.valid(after(first, steps).proxy),
    decreases steps.len(),
{
    if steps.len() > 0 {
        let step = steps.last();
        let before = after(first, steps.drop_last());
        lemma_shape_stays(first, steps.drop_last());
        laws::law_steps_are_sound(step.proxy, before.exchange, step.event, step.clock);
        laws::lemma_shape_is_transitive(first.proxy, before.proxy, step.proxy);
        laws::lemma_shape_is_transitive(first.proxy, step.proxy, after(first, steps).proxy);
    }
}

proof fn lemma_first_is_valid(first: TurnView, steps: Seq<Step>)
    requires
        possible(first, steps),
    ensures
        first.exchange.valid(first.proxy),
    decreases steps.len(),
{
    if steps.len() > 0 {
        lemma_first_is_valid(first, steps.drop_last());
    }
}

/// Whether a request carries a document that is on its way to the endpoints of a chain.
pub open spec fn carries(exchange: ExchangeView, chain: int, payload: Seq<char>) -> bool {
    match exchange {
        ExchangeView::Ready { chain: c, payload: document } => c == chain && document == payload,
        ExchangeView::Forwarding { attempt, .. } => attempt.chain == chain && attempt.payload
            == payload,
        _ => false,
    }
}

/// Whether a request waits for the body of a response.
pub open spec fn awaits_body(exchange: ExchangeView) -> bool {
    match exchange {
        ExchangeView::Forwarding { awaits, .. } => awaits is Body,
        _ => false,
    }
}

/// Whether an event is a response with a status that says that the request was met.
pub open spec fn met(event: EventView) -> bool {
    match event {
        EventView::News(NewsView::Answered(status)) => exchange::success(status),
        _ => false,
    }
}

/// A document is never given up. However many steps were taken for it, and whatever came of them, it
/// is still on its way, unchanged, and the client was not answered; or the last step brought the body
/// of a response, and the client was answered with that body and status 200. A body is read of no
/// response but one that says that the request was met.
pub proof fn law_a_document_is_never_given_up(
    first: TurnView,
    steps: Seq<Step>,
    chain: int,
    payload: Seq<char>,
)
    requires
        carries(first.exchange, chain, payload),
        possible(first, steps),
        steps.len() > 0,
    ensures
        match steps.last().event {
            EventView::News(NewsView::ReplyBody(Some(body))) => {
                &&& after(first, steps).exchange is Finished
                &&& after(first, steps).action == (ActionView::Reply { status: 200, body })
                &&& steps.len() > 1 ==> met(steps[steps.len() - 2].event)
            },
            _ => {
                &&& carries(after(first, steps).exchange, chain, payload)
                &&& !(after(first, steps).action is Reply)
                &&& awaits_body(after(first, steps).exchange) ==> met(steps.last().event)
            },
        },
    decreases steps.len(),
{
    let rest = steps.drop_last();
    let step = steps.last();
    if rest.len() > 0 {
        law_a_document_is_never_given_up(first, rest, chain, payload);
        assert(rest.last() == steps[steps.len() - 2]);
    }
    let before = after(first, rest);
    if let ExchangeView::Forwarding { attempt, awaits } = before.exchange {
        laws::law_only_success_ends_forwarding(
            step.proxy,
            attempt,
            awaits,
            step.event,
            step.clock,
        );
    }
}

/// How far the targets of a lookup have come after some steps.
pub open spec fn legs_after(l: LookupView, steps: Seq<Step>) -> Seq<LegView>
    decreases steps.len(),
{
    if steps.len() == 0 {
        l.legs
    } else {
        let before = legs_after(l, steps.drop_last());
        let step = steps.last();
        match step.event {
            EventView::Target { target, news } => before.update(
                target,
                exchange::target_looked(
                    step.proxy,
                    before[target]->attempt,
                    news,
                    step.clock,
                ).leg,
            ),
            _ => before,
        }
    }
}

/// A lookup comes to its answer. However its steps turn out, and in whatever order the news of its
/// targets come, there are no more steps than three for each endpoint that a chain can have, and three
/// besides, for each target. Until then the client is not answered, and the last step answers with what
/// was found on each target.
pub proof fn law_a_lookup_comes_to_its_answer(
    first: TurnView,
    l: LookupView,
    steps: Seq<Step>,
    most: nat,
)
    requires
        first.exchange == (ExchangeView::Looking { lookup: l }),
        lookup_laws::faithful(first.proxy, l),
        lookup_laws::at_most(first.proxy, most),
        possible(first, steps),
        steps.len() > 0,
    ensures
        lookup_laws::keeps_lookup(l, after(first, steps)),
        steps.len() + lookup_laws::steps_left(legs_after(l, steps), most)
            <= lookup_laws::steps_left(l.legs, most) <= l.targets.len() * (3 * most + 3),
        legs_after(l, steps).len() == l.targets.len(),
        match after(first, steps).exchange {
            ExchangeView::Looking { lookup: next } => next == (LookupView {
                legs: legs_after(l, steps),
                ..l
            }) && steps.len() < lookup_laws::steps_left(l.legs, most),
            _ => {
                let last = LookupView { legs: legs_after(l, steps), ..l };
                &&& last.settled()
                &&& after(first, steps).action == (ActionView::Reply {
                    status: 200,
                    body: last.reply(),
                })
            },
        },
    decreases steps.len(),
{
    let rest = steps.drop_last();
    let step = steps.last();
    let before = after(first, rest);
    lemma_shape_stays(first, rest);
    lemma_shape_stays(first, steps);
    laws::lemma_shape_is_transitive(first.proxy, before.proxy, step.proxy);
    lemma_bound_stays(first.proxy, step.proxy, most);
    lemma_bound_stays(first.proxy, after(first, steps).proxy, most);
    lemma_first_is_valid(first, steps);
    lookup_laws::lemma_left_is_counted(first.proxy, l.legs, most);
    if rest.len() > 0 {
        law_a_lookup_comes_to_its_answer(first, l, rest, most);
    }
    if let ExchangeView::Looking { lookup: now } = before.exchange {
        assert(now == LookupView { legs: legs_after(l, rest), ..l });
        if let EventView::Target { target, news } = step.event {
            lemma_faithful_stays(before.proxy, step.proxy, now);
            lookup_laws::law_a_lookup_answers_for_every_target(
                step.proxy,
                now,
                target,
                news,
                step.clock,
            );
            lookup_laws::law_a_lookup_comes_to_an_end(
                step.proxy,
                now,
                target,
                news,
                step.clock,
                most,
            );
            lemma_same_request(l, now, after(first, steps));
            if let ExchangeView::Looking { lookup: next } = after(first, steps).exchange {
                lookup_laws::lemma_left_is_counted(after(first, steps).proxy, next.legs, most);
            }
        }
    }
}

proof fn lemma_same_request(l: LookupView, now: LookupView, turn: TurnView)
    requires
        now.id == l.id,
        now.address == l.address,
        now.targets == l.targets,
        lookup_laws::keeps_lookup(now, turn),
    ensures
        lookup_laws::keeps_lookup(l, turn),
{
    if turn.exchange is Finished {
        let legs = choose|legs: Seq<LegView>| #[trigger]
            lookup_laws::answers_with(now, legs, turn);
        assert(LookupView { legs, ..now } == LookupView { legs, ..l });
        assert forall|i: int| 0 <= i < legs.len() implies lookup_laws::faithful_leg(
            turn.proxy,
            l,
            i,
            #[trigger] legs[i],
        ) by {
            assert(lookup_laws::faithful_leg(turn.proxy, now, i, legs[i]));
        }
        assert(lookup_laws::answers_with(l, legs, turn));
    }
}

proof fn lemma_faithful_stays(p: ProxyView, q: ProxyView, l: LookupView)
    requires
        laws::same_shape(p, q),
        lookup_laws::faithful(p, l),
    ensures
        lookup_laws::faithful(q, l),
{
    assert forall|i: int| 0 <= i < l.legs.len() implies lookup_laws::faithful_leg(
        q,
        l,
        i,
        #[trigger] l.legs[i],
    ) by {
        assert(lookup_laws::faithful_leg(p, l, i, l.legs[i]));
        lookup_laws::lemma_same_names(p, q, l.targets[i], 0);
    }
}

proof fn lemma_bound_stays(p: ProxyView, q: ProxyView, most: nat)
    requires
        laws::same_shape(p, q),
        lookup_laws::at_most(p, most),
    ensures
        lookup_laws::at_most(q, most),
{
    assert forall|c: int| 0 <= c < q.chains.len() implies (#[trigger] q.chains[c]).1.endpoints.len()
        <= most by {
        assert(p.chains[c].0 == q.chains[c].0);
    }
}

/// Whether one of the steps of a lookup brought, from an endpoint of the chain of a target's own name,
/// the body of a response with the given code.
pub open spec fn chain_answered(
    l: LookupView,
    steps: Seq<Step>,
    target: int,
    code: Seq<char>,
) -> bool {
    exists|k: int| 0 <= k < steps.len() && #[trigger] answered_in(l, steps, k, target, code)
}

/// Whether a step of a lookup brought, from an endpoint of the chain of a target's own name, the body of
/// a response with the given code.
pub open spec fn answered_in(
    l: LookupView,
    steps: Seq<Step>,
    k: int,
    target: int,
    code: Seq<char>,
) -> bool {
    let step = steps[k];
    &&& (match step.event {
        EventView::Target { target: t, news: NewsView::ReplyBody(Some(body)) } => t == target
            && lookup::code_answer(body) == lookup::CodeAnswerView::Code(code),
        _ => false,
    })
    &&& (match legs_after(l, steps.take(k))[target] {
        LegView::Asking { attempt, awaits } => {
            &&& awaits is Body
            &&& step.proxy.chain_named(l.targets[target]) == Some(attempt.chain)
        },
        LegView::Settled { .. } => false,
    })
}

/// What is recorded of a chain is what that chain answered. Of a lookup that began with no answers, each
/// target that is settled has the record of a failure, or the record of code that an endpoint of the
/// chain of its own name answered with. So a chain is said to have code only when one of its endpoints
/// answered with some.
pub proof fn law_a_record_is_what_its_chain_answered(
    first: TurnView,
    l: LookupView,
    steps: Seq<Step>,
    target: int,
)
    requires
        first.exchange == (ExchangeView::Looking { lookup: l }),
        lookup_laws::faithful(first.proxy, l),
        forall|i: int| 0 <= i < l.legs.len() ==> lookup_laws::begins(#[trigger] l.legs[i]),
        possible(first, steps),
        0 <= target < l.targets.len(),
        legs_after(l, steps)[target] is Settled,
    ensures
        ({
            let record = legs_after(l, steps)[target]->record;
            &&& lookup_laws::is_failure(record) || exists|code: Seq<char>|
                record == #[trigger] lookup::code_record(code) && chain_answered(
                    l,
                    steps,
                    target,
                    code,
                )
            &&& record.member("exists"@) == Some(Tree::Bool(true)) ==> exists|code: Seq<char>|
                #[trigger] chain_answered(l, steps, target, code) && !lookup::no_code(code)
        }),
    decreases steps.len(),
{
    let record = legs_after(l, steps)[target]->record;
    if steps.len() == 0 {
        assert(lookup_laws::begins(l.legs[target]));
    } else {
        let rest = steps.drop_last();
        let step = steps.last();
        let n = rest.len() as int;
        let before = after(first, rest);
        lemma_legs_are_those(first, l, rest);
        let legs = legs_after(l, rest);
        if legs[target] is Settled && !(step.event matches EventView::Target { target: t, .. } && t
            == target) {
            law_a_record_is_what_its_chain_answered(first, l, rest, target);
            assert forall|code: Seq<char>| chain_answered(l, rest, target, code) implies #[trigger]
                chain_answered(l, steps, target, code) by {
                let k = choose|k: int|
                    0 <= k < rest.len() && #[trigger] answered_in(l, rest, k, target, code);
                assert(steps.take(k) =~= rest.take(k));
                assert(answered_in(l, steps, k, target, code));
            }
            if !lookup_laws::is_failure(record) {
                let code = choose|code: Seq<char>|
                    record == #[trigger] lookup::code_record(code) && chain_answered(
                        l,
                        rest,
                        target,
                        code,
                    );
                assert(chain_answered(l, steps, target, code));
            }
            if record.member("exists"@) == Some(Tree::Bool(true)) {
                let code = choose|code: Seq<char>| #[trigger]
                    chain_answered(l, rest, target, code) && !lookup::no_code(code);
                assert(chain_answered(l, steps, target, code));
            }
        } else {
            let news = exchange::news_in(step.event);
            let attempt = legs[target]->attempt;
            lookup_laws::law_a_record_comes_of_its_own_target(
                step.proxy,
                attempt,
                news,
                step.clock,
            );
            assert(lookup_laws::came_of(record, news));
            if let NewsView::ReplyBody(Some(body)) = news {
                if let lookup::CodeAnswerView::Code(code) = lookup::code_answer(body) {
                    assert(steps.take(n) =~= rest);
                    lookup_laws::lemma_same_names(before.proxy, step.proxy, l.targets[target], 0);
                    assert(answered_in(l, steps, n, target, code));
                    assert(chain_answered(l, steps, target, code));
                    lookup_laws::law_a_record_says_whether_there_is_code(code, Seq::empty());
                }
            }
        }
    }
    if lookup_laws::is_failure(record) {
        let error = choose|error: Seq<char>| record == #[trigger] lookup::failure_record(error);
        lookup_laws::law_a_record_says_whether_there_is_code(Seq::empty(), error);
    }
}

/// While a lookup goes on, its targets stand where the steps have brought them, each still on the chain
/// of its own name.
proof fn lemma_legs_are_those(first: TurnView, l: LookupView, steps: Seq<Step>)
    requires
        first.exchange == (ExchangeView::Looking { lookup: l }),
        lookup_laws::faithful(first.proxy, l),
        possible(first, steps),
    ensures
        legs_after(l, steps).len() == l.targets.len(),
        after(first, steps).exchange is Looking || after(first, steps).exchange is Finished,
        after(first, steps).exchange matches ExchangeView::Looking { lookup: now } ==> now == (
        LookupView { legs: legs_after(l, steps), ..l }) && lookup_laws::faithful(
            after(first, steps).proxy,
            now,
        ),
    decreases steps.len(),
{
    if steps.len() > 0 {
        let rest = steps.drop_last();
        let step = steps.last();
        let before = after(first, rest);
        lemma_legs_are_those(first, l, rest);
        if let ExchangeView::Looking { lookup: now } = before.exchange {
            if let EventView::Target { target, news } = step.event {
                lemma_faithful_stays(before.proxy, step.proxy, now);
                lookup_laws::law_a_lookup_answers_for_every_target(
                    step.proxy,
                    now,
                    target,
                    news,
                    step.clock,
                );
            }
        }
    }
}

/// A request for a chain that an endpoint meets at once: when it comes, what it carries, and with what
/// and when it is answered.
pub struct Served {
    pub payload: Seq<char>,
    pub begins: Clock,
    pub status: u16,
    pub answers: Clock,
    pub body: Seq<u8>,
    pub ends: Clock,
}

/// The step with which such a request sets out.
pub open spec fn sent(p: ProxyView, chain: int, r: Served) -> TurnView {
    exchange::advanced(
        p,
        ExchangeView::Ready { chain, payload: r.payload },
        EventView::Proceed,
        r.begins,
    )
}

/// The step on the status of the response.
pub open spec fn accepted(p: ProxyView, chain: int, r: Served) -> TurnView {
    let before = sent(p, chain, r);
    exchange::advanced(
        before.proxy,
        before.exchange,
        EventView::News(NewsView::Answered(r.status)),
        r.answers,
    )
}

/// The step on the body of the response.
pub open spec fn completed(p: ProxyView, chain: int, r: Served) -> TurnView {
    let before = accepted(p, chain, r);
    exchange::advanced(
        before.proxy,
        before.exchange,
        EventView::News(NewsView::ReplyBody(Some(r.body))),
        r.ends,
    )
}

/// The proxy after some such requests, one after the other.
pub open spec fn after_all(p: ProxyView, chain: int, requests: Seq<Served>) -> ProxyView
    decreases requests.len(),
{
    if requests.len() == 0 {
        p
    } else {
        completed(after_all(p, chain, requests.drop_last()), chain, requests.last()).proxy
    }
}

/// Whether all endpoints of a chain are healthy from an instant on.
pub open spec fn all_healthy(p: ProxyView, chain: int, since: u64) -> bool {
    forall|i: int|
        0 <= i < p.endpoints(chain).len() ==> (#[trigger] p.endpoints(chain)[i]).healthy_at(since)
}

/// Requests go round: while all endpoints of a chain are healthy and meet what they get, each request is
/// sent exactly once, and the one that comes as number `k` goes to the endpoint that stands `k` places
/// behind the one whose turn it was at first.
pub proof fn law_requests_go_round(
    p: ProxyView,
    chain: int,
    requests: Seq<Served>,
    since: u64,
)
    requires
        0 <= chain < p.chains.len(),
        p.endpoints(chain).len() > 0,
        all_healthy(p, chain, since),
        p.chains[chain].1.current_index + requests.len() <= usize::MAX,
        forall|k: int|
            0 <= k < requests.len() ==> exchange::success((#[trigger] requests[k]).status)
                && requests[k].begins.instant >= since,
    ensures
        laws::same_shape(p, after_all(p, chain, requests)),
        all_healthy(after_all(p, chain, requests), chain, since),
        after_all(p, chain, requests).chains[chain].1.current_index
            == p.chains[chain].1.current_index + requests.len(),
        forall|k: int|
            0 <= k < requests.len() ==> goes_to(
                p,
                after_all(p, chain, requests.take(k)),
                chain,
                (p.chains[chain].1.current_index + k) % (p.endpoints(chain).len() as int),
                #[trigger] requests[k],
            ),
    decreases requests.len(),
{
    assert(requests.take(requests.len() as int) =~= requests);
    if requests.len() > 0 {
        let rest = requests.drop_last();
        let n = rest.len() as int;
        let r = requests.last();
        assert forall|k: int| 0 <= k < rest.len() implies exchange::success(
            (#[trigger] rest[k]).status,
        ) && rest[k].begins.instant >= since by {
            assert(rest[k] == requests[k]);
        }
        law_requests_go_round(p, chain, rest, since);
        let q = after_all(p, chain, rest);
        assert(p.chains[chain].0 == q.chains[chain].0);
        assert(exchange::success(requests[n].status));
        lemma_one_round(q, chain, r, since);
        let done = completed(q, chain, r).proxy;
        laws::lemma_shape_is_transitive(p, q, done);
        assert forall|k: int| 0 <= k < requests.len() implies goes_to(
            p,
            after_all(p, chain, requests.take(k)),
            chain,
            (p.chains[chain].1.current_index + k) % (p.endpoints(chain).len() as int),
            #[trigger] requests[k],
        ) by {
            if k < n {
                assert(requests.take(k) =~= rest.take(k));
                assert(rest[k] == requests[k]);
            } else {
                assert(requests.take(k) =~= rest);
                let i = (p.chains[chain].1.current_index + k) % (p.endpoints(chain).len() as int);
                vstd::arithmetic::div_mod::lemma_mod_bound(
                    p.chains[chain].1.current_index + k,
                    p.endpoints(chain).len() as int,
                );
                assert(laws::same_endpoint(
                    p.chains[chain].1.endpoints[i],
                    q.chains[chain].1.endpoints[i],
                ));
            }
        }
    }
}

/// Whether a request is sent once, to an endpoint in a given place, and answered with what that endpoint
/// responds.
pub open spec fn goes_to(p: ProxyView, q: ProxyView, chain: int, i: int, r: Served) -> bool {
    &&& sent(q, chain, r).action == (ActionView::Post {
        url: p.endpoints(chain)[i].url,
        payload: r.payload,
    })
    &&& accepted(q, chain, r).action == ActionView::ReadReply
    &&& completed(q, chain, r).action == (ActionView::Reply { status: 200, body: r.body })
}

proof fn lemma_one_round(p: ProxyView, chain: int, r: Served, since: u64)
    requires
        0 <= chain < p.chains.len(),
        p.endpoints(chain).len() > 0,
        all_healthy(p, chain, since),
        p.chains[chain].1.current_index < usize::MAX,
        exchange::success(r.status),
        r.begins.instant >= since,
    ensures
        goes_to(p, p, chain, p.chains[chain].1.first_place(), r),
        laws::same_shape(p, completed(p, chain, r).proxy),
        all_healthy(completed(p, chain, r).proxy, chain, since),
        completed(p, chain, r).proxy.chains[chain].1.current_index
            == p.chains[chain].1.current_index + 1,
{
    let state = p.chains[chain].1;
    let n = state.endpoints.len() as int;
    let start = state.first_place();
    vstd::arithmetic::div_mod::lemma_mod_bound(state.current_index as int, n);
    vstd::arithmetic::div_mod::lemma_small_mod(start as nat, n as nat);
    let counted = p.with_chain(chain, state.counted());
    let attempt = AttemptView { chain, payload: r.payload, start, offset: 0 };
    assert(counted.endpoints(chain)[start].healthy_at(since));
    assert(exchange::next_offset(counted, attempt, r.begins.instant) == Some(0int));
    let q = exchange::searched(counted, attempt, r.begins.instant);
    assert(sent(p, chain, r).proxy == q);
    assert(q.place_of(attempt) == start);
    let done = q.after_success(attempt);
    assert(completed(p, chain, r).proxy == done);
    assert(done.chains[chain].1.endpoints.len() == n);
    assert forall|i: int| 0 <= i < n implies (#[trigger] done.endpoints(chain)[i]).healthy_at(since)
        && laws::same_endpoint(p.endpoints(chain)[i], done.endpoints(chain)[i]) by {
        assert(p.endpoints(chain)[i].healthy_at(since));
    }
    assert forall|c: int| 0 <= c < p.chains.len() implies (#[trigger] p.chains[c]).0
        == done.chains[c].0 && laws::same_endpoints(p.chains[c].1, done.chains[c].1) by {
        if c == chain {
            assert forall|i: int| 0 <= i < n implies laws::same_endpoint(
                #[trigger] p.chains[c].1.endpoints[i],
                done.chains[c].1.endpoints[i],
            ) by {
                assert(done.endpoints(chain)[i].healthy_at(since));
            }
        }
    }
}

/// Of as many requests as a chain has endpoints, one after the other, each endpoint gets exactly one.
pub proof fn law_a_round_reaches_every_endpoint(state: ChainView, i: int)
    requires
        0 <= i < state.endpoints.len(),
    ensures
        exists|k: int|
            0 <= k < state.endpoints.len() && #[trigger] turn_of(state, k) == i && forall|j: int|
                0 <= j < state.endpoints.len() && #[trigger] turn_of(state, j) == i ==> j == k,
{
    let n = state.endpoints.len() as int;
    let c = state.current_index as int;
    vstd::arithmetic::div_mod::lemma_mod_bound(c, n);
    laws::law_a_pass_covers_every_endpoint(c % n, n, i);
    let k = choose|k: int|
        0 <= k < n && #[trigger] chain::place(c % n, k, n) == i && forall|j: int|
            0 <= j < n && #[trigger] chain::place(c % n, j, n) == i ==> j == k;
    assert forall|j: int| #[trigger] turn_of(state, j) == chain::place(c % n, j, n) by {
        vstd::arithmetic::div_mod::lemma_add_mod_noop(c, j, n);
        vstd::arithmetic::div_mod::lemma_add_mod_noop(c % n, j, n);
        vstd::arithmetic::div_mod::lemma_mod_twice(c, n);
    }
    assert(turn_of(state, k) == i);
}

/// The place of the endpoint to which the request that comes as a given number goes.
pub open spec fn turn_of(state: ChainView, k: int) -> int {
    (state.current_index + k) % (state.endpoints.len() as int)
}

} // verus!
