//! What holds of lookups: every target is asked at once, none waits for another, and each record is of
//! its own chain.

use crate::chain;
use crate::endpoint::EndpointView;
use crate::exchange;
use crate::exchange::ActionView;
use crate::exchange::AskedView;
use crate::exchange::AttemptView;
use crate::exchange::Await;
use crate::exchange::EventView;
use crate::exchange::ExchangeView;
use crate::exchange::InquiryView;
use crate::exchange::LegView;
use crate::exchange::LookupView;
use crate::exchange::NewsView;
use crate::exchange::ProxyView;
use crate::exchange::TurnView;
use crate::health::Clock;
use crate::json;
use crate::json::Tree;
use crate::laws;
use crate::lookup;
use vstd::prelude::*;

verus! {

pub(crate) proof fn lemma_same_names(p: ProxyView, q: ProxyView, name: Seq<char>, from: int)
    requires
        laws::same_shape(p, q),
        0 <= from,
    ensures
        exchange::chain_index(p.chains, name, from) == exchange::chain_index(q.chains, name, from),
    decreases p.chains.len() - from,
{
    if from < p.chains.len() {
        assert(p.chains[from].0 == q.chains[from].0);
        lemma_same_names(p, q, name, from + 1);
    }
}

/// Whether the same of two lists of endpoints are healthy at an instant.
pub open spec fn same_health(a: Seq<EndpointView>, b: Seq<EndpointView>, now: u64) -> bool {
    &&& a.len() == b.len()
    &&& forall|i: int|
        0 <= i < a.len() ==> (#[trigger] a[i]).healthy_at(now) == b[i].healthy_at(now)
}

proof fn lemma_same_health(
    a: Seq<EndpointView>,
    b: Seq<EndpointView>,
    start: int,
    from: int,
    now: u64,
)
    requires
        same_health(a, b, now),
        0 <= start < a.len(),
        0 <= from,
    ensures
        chain::next_healthy(a, start, from, now) == chain::next_healthy(b, start, from, now),
    decreases a.len() - from,
{
    if from < a.len() {
        vstd::arithmetic::div_mod::lemma_mod_bound(start + from, a.len() as int);
        assert(a[chain::place(start, from, a.len() as int)].healthy_at(now)
            == b[chain::place(start, from, a.len() as int)].healthy_at(now));
        lemma_same_health(a, b, start, from + 1, now);
    }
}

/// Whether any of a list of endpoints is healthy at an instant.
pub open spec fn any_healthy(endpoints: Seq<EndpointView>, now: u64) -> bool {
    exists|i: int| 0 <= i < endpoints.len() && (#[trigger] endpoints[i]).healthy_at(now)
}

proof fn lemma_any_healthy(endpoints: Seq<EndpointView>, start: int, now: u64)
    requires
        0 <= start < endpoints.len(),
    ensures
        any_healthy(endpoints, now) <==> chain::next_healthy(endpoints, start, 0, now) is Some,
{
    let n = endpoints.len() as int;
    laws::lemma_found_in_range(endpoints, start, 0, now);
    match chain::next_healthy(endpoints, start, 0, now) {
        Some(k) => {
            vstd::arithmetic::div_mod::lemma_mod_bound(start + k, n);
            assert(endpoints[chain::place(start, k, n)].healthy_at(now));
        },
        None => {
            assert forall|i: int| 0 <= i < n implies !(#[trigger] endpoints[i]).healthy_at(now) by {
                laws::law_a_pass_covers_every_endpoint(start, n, i);
                let offset = choose|offset: int|
                    0 <= offset < n && #[trigger] chain::place(start, offset, n) == i;
                assert(!endpoints[chain::place(start, offset, n)].healthy_at(now));
            }
        },
    }
}

/// Whether the question is with the first healthy endpoint of a chain, in the order of a pass.
pub open spec fn asks_first_healthy(
    p: ProxyView,
    chain: int,
    address: Seq<char>,
    now: u64,
    leg: LegView,
) -> bool {
    match leg {
        LegView::Asking { attempt, awaits } => {
            &&& awaits is Answer
            &&& attempt.chain == chain
            &&& attempt.payload == json::rendered_json(lookup::code_question(address))
            &&& 0 <= attempt.start < p.endpoints(chain).len()
            &&& chain::next_healthy(p.endpoints(chain), attempt.start, 0, now) == Some(
                attempt.offset,
            )
        },
        LegView::Settled { .. } => false,
    }
}

/// How a target sets out: with the question at a healthy endpoint, if it has one, and else settled,
/// with the reason.
pub open spec fn sets_out(
    p: ProxyView,
    target: Seq<char>,
    address: Seq<char>,
    now: u64,
    leg: LegView,
) -> bool {
    match p.chain_named(target) {
        None => leg == (LegView::Settled {
            record: lookup::failure_record("chain not configured"@),
        }),
        Some(c) => if p.endpoints(c).len() == 0 {
            leg == (LegView::Settled { record: lookup::failure_record("no endpoints configured"@) })
        } else if any_healthy(p.endpoints(c), now) {
            asks_first_healthy(p, c, address, now, leg)
        } else {
            leg == (LegView::Settled { record: lookup::failure_record("all endpoints failed"@) })
        },
    }
}

/// Whether the question, if it is on its way, started at the endpoint whose turn it was.
pub open spec fn starts_in_turn(p: ProxyView, leg: LegView) -> bool {
    match leg {
        LegView::Asking { attempt, .. } => attempt.start
            == p.chains[attempt.chain].1.first_place(),
        LegView::Settled { .. } => true,
    }
}

/// Whether an inquiry sends the question to the endpoint that a target is with.
pub open spec fn inquires(p: ProxyView, leg: LegView, inquiry: InquiryView) -> bool {
    match leg {
        LegView::Asking { attempt, .. } => {
            &&& inquiry.url == p.endpoint_of(attempt).url
            &&& inquiry.payload == attempt.payload
        },
        LegView::Settled { .. } => false,
    }
}

/// Whether there is exactly one inquiry for each target that is not settled, and none for another.
pub open spec fn one_for_each(
    p: ProxyView,
    legs: Seq<LegView>,
    inquiries: Seq<InquiryView>,
) -> bool {
    &&& forall|m: int|
        0 <= m < inquiries.len() ==> {
            &&& 0 <= (#[trigger] inquiries[m]).target < legs.len()
            &&& inquires(p, legs[inquiries[m].target], inquiries[m])
        }
    &&& forall|i: int|
        0 <= i < legs.len() && (#[trigger] legs[i]) is Asking ==> exists|m: int|
            0 <= m < inquiries.len() && (#[trigger] inquiries[m]).target == i
    &&& forall|m: int, k: int|
        0 <= m < k < inquiries.len() ==> (#[trigger] inquiries[m]).target < (
        #[trigger] inquiries[k]).target
}

/// Whether a name is among the first of a list of names.
pub open spec fn among(targets: Seq<Seq<char>>, n: int, name: Seq<char>) -> bool {
    exists|j: int| 0 <= j < n && (#[trigger] targets[j]) == name
}

/// Whether a chain of the proxy is one of the targets.
pub open spec fn targeted(p: ProxyView, targets: Seq<Seq<char>>, chain: int) -> bool {
    exists|j: int|
        0 <= j < targets.len() && p.chain_named(#[trigger] targets[j]) == Some(chain)
}

/// How all targets of a lookup set out. Each does so as if it were the only one; only where a chain is
/// named twice do its later starts go on from its earlier ones. Chains that are not among the targets
/// are left alone.
pub open spec fn all_set_out(
    p: ProxyView,
    targets: Seq<Seq<char>>,
    address: Seq<char>,
    now: u64,
    all: AskedView,
) -> bool {
    &&& all.legs.len() == targets.len()
    &&& forall|i: int|
        0 <= i < targets.len() ==> sets_out(p, targets[i], address, now, #[trigger] all.legs[i])
    &&& forall|i: int|
        0 <= i < targets.len() && !among(targets, i, targets[i]) ==> starts_in_turn(
            p,
            #[trigger] all.legs[i],
        )
    &&& one_for_each(p, all.legs, all.inquiries)
    &&& laws::same_shape(p, all.proxy)
    &&& all.proxy.store == p.store
    &&& forall|c: int|
        0 <= c < p.chains.len() ==> {
            &&& !targeted(p, targets, c) ==> (#[trigger] all.proxy.chains[c]) == p.chains[c]
            &&& same_health(p.chains[c].1.endpoints, all.proxy.chains[c].1.endpoints, now)
        }
}

/// Whether each chain that is asked has its counter moved on by one.
pub open spec fn counted_once(p: ProxyView, targets: Seq<Seq<char>>, q: ProxyView) -> bool {
    forall|i: int|
        0 <= i < targets.len() ==> (match p.chain_named(#[trigger] targets[i]) {
            Some(c) => p.endpoints(c).len() > 0 ==> q.chains[c].1.current_index
                == p.chains[c].1.counted().current_index,
            None => true,
        })
}

proof fn lemma_asked(p: ProxyView, target: Seq<char>, address: Seq<char>, now: u64)
    ensures
        ({
            let step = exchange::asked(p, target, address, now);
            &&& step.proxy.store == p.store
            &&& sets_out(p, target, address, now, step.leg)
            &&& starts_in_turn(p, step.leg)
            &&& step.leg is Settled ==> step.action is AwaitOthers
            &&& step.leg matches LegView::Asking { attempt, .. } ==> step.action == (
            ActionView::Post { url: p.endpoint_of(attempt).url, payload: attempt.payload })
            &&& forall|c: int|
                0 <= c < p.chains.len() ==> {
                    &&& p.chain_named(target) != Some(c) ==> (#[trigger] step.proxy.chains[c])
                        == p.chains[c]
                    &&& same_health(p.chains[c].1.endpoints, step.proxy.chains[c].1.endpoints, now)
                }
            &&& p.chain_named(target) matches Some(c) ==> p.endpoints(c).len() > 0
                ==> step.proxy.chains[c].1.current_index == p.chains[c].1.counted().current_index
        }),
{
    laws::lemma_chain_index(p.chains, target, 0);
    if let Some(c) = p.chain_named(target) {
        if p.endpoints(c).len() > 0 {
            let state = p.chains[c].1;
            let start = state.first_place();
            let n = p.endpoints(c).len() as int;
            vstd::arithmetic::div_mod::lemma_mod_bound(state.current_index as int, n);
            lemma_any_healthy(p.endpoints(c), start, now);
            laws::lemma_found_in_range(p.endpoints(c), start, 0, now);
            if let Some(k) = chain::next_healthy(p.endpoints(c), start, 0, now) {
                vstd::arithmetic::div_mod::lemma_mod_bound(start + k, n);
            }
        }
    }
}

proof fn lemma_all_set_out(
    p: ProxyView,
    targets: Seq<Seq<char>>,
    address: Seq<char>,
    now: u64,
)
    ensures
        all_set_out(
            p,
            targets,
            address,
            now,
            exchange::all_asked(p, targets, address, now),
        ),
    decreases targets.len(),
{
    laws::lemma_all_asked_is_sound(p, targets, address, now);
    let all = exchange::all_asked(p, targets, address, now);
    if targets.len() > 0 {
        let rest = targets.drop_last();
        let last = targets.last();
        let n = rest.len() as int;
        lemma_all_set_out(p, rest, address, now);
        let before = exchange::all_asked(p, rest, address, now);
        let step = exchange::asked(before.proxy, last, address, now);
        lemma_asked(before.proxy, last, address, now);
        lemma_same_names(p, before.proxy, last, 0);
        laws::lemma_chain_index(p.chains, last, 0);
        laws::lemma_asked_is_sound(before.proxy, last, address, now);
        assert(all.legs =~= before.legs.push(step.leg));
        lemma_sets_out_alike(p, before.proxy, last, address, now, step.leg);
        assert forall|i: int| 0 <= i < targets.len() implies sets_out(
            p,
            targets[i],
            address,
            now,
            #[trigger] all.legs[i],
        ) by {
            if i < n {
                assert(rest[i] == targets[i]);
                assert(all.legs[i] == before.legs[i]);
            }
        }
        assert forall|i: int|
            0 <= i < targets.len() && !among(targets, i, targets[i]) implies starts_in_turn(
            p,
            #[trigger] all.legs[i],
        ) by {
            if i < n {
                assert(rest[i] == targets[i]);
                assert(all.legs[i] == before.legs[i]);
                if among(rest, i, rest[i]) {
                    let j = choose|j: int| 0 <= j < i && (#[trigger] rest[j]) == rest[i];
                    assert(targets[j] == targets[i]);
                }
            } else if let Some(c) = p.chain_named(last) {
                if targeted(p, rest, c) {
                    let j = choose|j: int|
                        0 <= j < rest.len() && p.chain_named(#[trigger] rest[j]) == Some(c);
                    laws::lemma_chain_index(p.chains, rest[j], 0);
                    assert(targets[j] == rest[j]);
                    assert(among(targets, i, targets[i]));
                }
                assert(before.proxy.chains[c] == p.chains[c]);
            }
        }
        assert forall|c: int| 0 <= c < p.chains.len() implies {
            &&& !targeted(p, targets, c) ==> (#[trigger] all.proxy.chains[c]) == p.chains[c]
            &&& same_health(p.chains[c].1.endpoints, all.proxy.chains[c].1.endpoints, now)
        } by {
            assert(same_health(
                p.chains[c].1.endpoints,
                before.proxy.chains[c].1.endpoints,
                now,
            ));
            assert(same_health(
                before.proxy.chains[c].1.endpoints,
                step.proxy.chains[c].1.endpoints,
                now,
            ));
            let a = p.chains[c].1.endpoints;
            let b = before.proxy.chains[c].1.endpoints;
            assert forall|i: int| 0 <= i < a.len() implies (#[trigger] a[i]).healthy_at(now)
                == step.proxy.chains[c].1.endpoints[i].healthy_at(now) by {
                assert(a[i].healthy_at(now) == b[i].healthy_at(now));
            }
            if !targeted(p, targets, c) {
                if targeted(p, rest, c) {
                    let j = choose|j: int|
                        0 <= j < rest.len() && p.chain_named(#[trigger] rest[j]) == Some(c);
                    assert(targets[j] == rest[j]);
                }
                assert(targets[n] == last);
            }
        }
        lemma_one_more(p, before, step.leg, all);
    }
}

/// A leg that sets out from a later state of the proxy, with the same endpoints healthy, sets out from
/// the first one too.
proof fn lemma_sets_out_alike(
    p: ProxyView,
    q: ProxyView,
    target: Seq<char>,
    address: Seq<char>,
    now: u64,
    leg: LegView,
)
    requires
        laws::same_shape(p, q),
        forall|c: int|
            0 <= c < p.chains.len() ==> same_health(
                p.chains[c].1.endpoints,
                (#[trigger] q.chains[c]).1.endpoints,
                now,
            ),
        sets_out(q, target, address, now, leg),
    ensures
        sets_out(p, target, address, now, leg),
{
    lemma_same_names(p, q, target, 0);
    laws::lemma_chain_index(p.chains, target, 0);
    if let Some(c) = p.chain_named(target) {
        let a = p.chains[c].1.endpoints;
        let b = q.chains[c].1.endpoints;
        assert(same_health(a, b, now));
        if a.len() > 0 {
            lemma_any_healthy(a, 0, now);
            lemma_any_healthy(b, 0, now);
            lemma_same_health(a, b, 0, 0, now);
            if let LegView::Asking { attempt, .. } = leg {
                if any_healthy(b, now) {
                    lemma_same_health(a, b, attempt.start, 0, now);
                }
            }
        }
    }
}

proof fn lemma_one_more(p: ProxyView, before: AskedView, leg: LegView, all: AskedView)
    requires
        one_for_each(p, before.legs, before.inquiries),
        laws::same_shape(p, before.proxy),
        all.legs == before.legs.push(leg),
        leg is Settled ==> all.inquiries == before.inquiries,
        leg.valid(p),
        leg matches LegView::Asking { attempt, awaits } ==> awaits is Answer && all.inquiries
            == before.inquiries.push(
            InquiryView {
                target: before.legs.len() as int,
                url: before.proxy.endpoint_of(attempt).url,
                payload: attempt.payload,
            },
        ),
    ensures
        one_for_each(p, all.legs, all.inquiries),
{
    let n = before.legs.len() as int;
    let k = before.inquiries.len() as int;
    if let LegView::Asking { attempt, awaits } = leg {
        assert(p.chains[attempt.chain].0 == before.proxy.chains[attempt.chain].0);
        laws::lemma_place_in_range(p, attempt);
        assert(laws::same_endpoint(
            p.chains[attempt.chain].1.endpoints[p.place_of(attempt)],
            before.proxy.chains[attempt.chain].1.endpoints[p.place_of(attempt)],
        ));
        assert(all.inquiries[k].target == n);
    }
    assert forall|m: int| 0 <= m < all.inquiries.len() implies {
        &&& 0 <= (#[trigger] all.inquiries[m]).target < all.legs.len()
        &&& inquires(p, all.legs[all.inquiries[m].target], all.inquiries[m])
    } by {
        if m < k {
            assert(all.inquiries[m] == before.inquiries[m]);
        }
    }
    assert forall|i: int| 0 <= i < all.legs.len() && (#[trigger] all.legs[i]) is Asking implies exists|
        m: int,
    |
        0 <= m < all.inquiries.len() && (#[trigger] all.inquiries[m]).target == i by {
        if i < n {
            assert(before.legs[i] is Asking);
            let m = choose|m: int| 0 <= m < k && (#[trigger] before.inquiries[m]).target == i;
            assert(all.inquiries[m].target == i);
        }
    }
    assert forall|m: int, j: int| 0 <= m < j < all.inquiries.len() implies (
    #[trigger] all.inquiries[m]).target < (#[trigger] all.inquiries[j]).target by {
        assert(all.inquiries[m] == before.inquiries[m]);
        if j < k {
            assert(all.inquiries[j] == before.inquiries[j]);
        }
    }
}

proof fn lemma_counted_once(
    p: ProxyView,
    targets: Seq<Seq<char>>,
    address: Seq<char>,
    now: u64,
)
    requires
        targets.no_duplicates(),
    ensures
        counted_once(p, targets, exchange::all_asked(p, targets, address, now).proxy),
    decreases targets.len(),
{
    if targets.len() > 0 {
        let rest = targets.drop_last();
        let last = targets.last();
        lemma_counted_once(p, rest, address, now);
        lemma_all_set_out(p, rest, address, now);
        let before = exchange::all_asked(p, rest, address, now);
        lemma_asked(before.proxy, last, address, now);
        lemma_same_names(p, before.proxy, last, 0);
        laws::lemma_chain_index(p.chains, last, 0);
        let q = exchange::all_asked(p, targets, address, now).proxy;
        assert forall|i: int| 0 <= i < targets.len() implies (match p.chain_named(
            #[trigger] targets[i],
        ) {
            Some(c) => p.endpoints(c).len() > 0 ==> q.chains[c].1.current_index
                == p.chains[c].1.counted().current_index,
            None => true,
        }) by {
            laws::lemma_chain_index(p.chains, targets[i], 0);
            if let Some(c) = p.chain_named(targets[i]) {
                if i < rest.len() {
                    assert(rest[i] == targets[i]);
                    assert(targets[i] != targets[targets.len() - 1]);
                    assert(q.chains[c] == before.proxy.chains[c]);
                } else {
                    if targeted(p, rest, c) {
                        let j = choose|j: int|
                            0 <= j < rest.len() && p.chain_named(#[trigger] rest[j]) == Some(c);
                        laws::lemma_chain_index(p.chains, rest[j], 0);
                        assert(targets[j] == targets[i]);
                    }
                    assert(before.proxy.chains[c] == p.chains[c]);
                }
            }
        }
    }
}

/// The lookup that a request leads to.
pub open spec fn lookup_of(p: ProxyView, request: Tree, now: u64) -> LookupView
    recommends
        lookup::contract_params(request) is Ok,
{
    let params = lookup::contract_params(request)->Ok_0;
    let targets = exchange::targets_of(p, params.1);
    LookupView {
        id: request.member("id"@),
        address: params.0,
        targets,
        legs: exchange::all_asked(p, targets, params.0, now).legs,
    }
}

/// A lookup asks all of its targets at once: its first step hands out, for every target that has a
/// healthy endpoint, the post of the question to the first such endpoint from the one on whose turn it
/// is. The other targets are settled then and there, each with the reason. Where no target is named
/// twice, each chain that is asked is counted once; and no chain is touched that is not a target. Where
/// no target has a healthy endpoint, the client is answered at once.
pub proof fn law_a_lookup_asks_every_target_at_once(p: ProxyView, request: Tree, now: u64)
    requires
        lookup::contract_params(request) is Ok,
    ensures
        ({
            let l = lookup_of(p, request, now);
            let all = exchange::all_asked(p, l.targets, l.address, now);
            let turn = exchange::lookup_begun(p, request, now);
            &&& all_set_out(p, l.targets, l.address, now, all)
            &&& l.targets.no_duplicates() ==> counted_once(p, l.targets, turn.proxy)
            &&& turn.proxy == all.proxy
            &&& !turn.persist
            &&& all.inquiries.len() > 0 <==> !l.settled()
            &&& all.inquiries.len() > 0 ==> turn.exchange == (ExchangeView::Looking { lookup: l })
                && turn.action == (ActionView::Ask { inquiries: all.inquiries })
            &&& all.inquiries.len() == 0 ==> turn == exchange::answered(
                all.proxy,
                200,
                l.reply(),
                false,
            )
        }),
{
    let l = lookup_of(p, request, now);
    let all = exchange::all_asked(p, l.targets, l.address, now);
    lemma_all_set_out(p, l.targets, l.address, now);
    if l.targets.no_duplicates() {
        lemma_counted_once(p, l.targets, l.address, now);
    }
    if all.inquiries.len() > 0 {
        let m = 0int;
        assert(inquires(p, all.legs[all.inquiries[m].target], all.inquiries[m]));
        assert(l.legs[all.inquiries[m].target] is Asking);
    }
}

proof fn lemma_leg_depends_on_its_chain(
    p: ProxyView,
    q: ProxyView,
    attempt: AttemptView,
    news: NewsView,
    clock: Clock,
)
    requires
        0 <= attempt.chain < p.chains.len(),
        p.chains.len() == q.chains.len(),
        p.chains[attempt.chain] == q.chains[attempt.chain],
    ensures
        exchange::target_looked(p, attempt, news, clock).leg == exchange::target_looked(
            q,
            attempt,
            news,
            clock,
        ).leg,
        exchange::target_looked(p, attempt, news, clock).action == exchange::target_looked(
            q,
            attempt,
            news,
            clock,
        ).action,
{
    let a = p.after_failure(attempt, clock);
    let b = q.after_failure(attempt, clock);
    assert(a.chains[attempt.chain] == b.chains[attempt.chain]);
}

proof fn lemma_leg_stays_on_its_chain(
    p: ProxyView,
    attempt: AttemptView,
    awaits: Await,
    news: NewsView,
    clock: Clock,
)
    requires
        attempt.valid(p, awaits),
        exchange::awaited(awaits, news),
    ensures
        ({
            let step = exchange::target_looked(p, attempt, news, clock);
            &&& step.proxy.chains.len() == p.chains.len()
            &&& forall|c: int|
                0 <= c < p.chains.len() && c != attempt.chain ==> (#[trigger] step.proxy.chains[c])
                    == p.chains[c]
            &&& step.leg matches LegView::Asking { attempt: next, .. } ==> next.chain
                == attempt.chain && next.start == attempt.start && next.payload
                == attempt.payload
            &&& !(step.action is Reply)
            &&& !(step.action is Ask)
        }),
{
}

/// No target of a lookup waits for another. News of one target changes how far that one has come, as
/// its own endpoints have it, and leaves the others as they were, and their chains too. What news of
/// another chain lead to is the same before and after.
pub proof fn law_targets_do_not_wait_for_each_other(
    p: ProxyView,
    l: LookupView,
    target: int,
    news: NewsView,
    clock: Clock,
)
    requires
        exchange::ready(
            p,
            ExchangeView::Looking { lookup: l },
            EventView::Target { target, news },
            clock,
        ),
    ensures
        ({
            let turn = exchange::advanced(
                p,
                ExchangeView::Looking { lookup: l },
                EventView::Target { target, news },
                clock,
            );
            let attempt = l.legs[target]->attempt;
            let step = exchange::target_looked(p, attempt, news, clock);
            &&& turn.proxy == step.proxy
            &&& forall|c: int|
                0 <= c < p.chains.len() && c != attempt.chain ==> (#[trigger] turn.proxy.chains[c])
                    == p.chains[c]
            &&& (match turn.exchange {
                ExchangeView::Looking { lookup: next } => {
                    &&& next == l.with_leg(target, step.leg)
                    &&& turn.action == step.action
                    &&& !(turn.action is Reply)
                    &&& forall|i: int|
                        0 <= i < l.legs.len() && i != target ==> (#[trigger] next.legs[i])
                            == l.legs[i]
                    &&& forall|i: int, other: NewsView, then: Clock|
                        undisturbed(p, l, attempt.chain, turn.proxy, i, other, then)
                },
                ExchangeView::Finished => {
                    &&& turn.action is Reply
                    &&& step.leg is Settled
                    &&& forall|i: int|
                        0 <= i < l.legs.len() && i != target ==> (#[trigger] l.legs[i]) is Settled
                },
                _ => false,
            })
        }),
{
    let attempt = l.legs[target]->attempt;
    let awaits = l.legs[target]->awaits;
    assert(l.legs[target].valid(p));
    lemma_leg_stays_on_its_chain(p, attempt, awaits, news, clock);
    let step = exchange::target_looked(p, attempt, news, clock);
    let next = l.with_leg(target, step.leg);
    if next.settled() {
        assert forall|i: int| 0 <= i < l.legs.len() && i != target implies (
        #[trigger] l.legs[i]) is Settled by {
            assert(next.legs[i] is Settled);
        }
        assert(next.legs[target] is Settled);
    }
    assert forall|i: int, other: NewsView, then: Clock| undisturbed(
        p,
        l,
        attempt.chain,
        step.proxy,
        i,
        other,
        then,
    ) by {
        if 0 <= i < l.legs.len() {
            if let LegView::Asking { attempt: a, .. } = l.legs[i] {
                assert(l.legs[i].valid(p));
                if a.chain != attempt.chain {
                    lemma_leg_depends_on_its_chain(p, step.proxy, a, other, then);
                }
            }
        }
    }
}

/// Whether what news of a target lead to is the same in two states of the proxy, where the target is
/// being asked on another chain than the given one.
pub open spec fn undisturbed(
    p: ProxyView,
    l: LookupView,
    chain: int,
    q: ProxyView,
    i: int,
    news: NewsView,
    clock: Clock,
) -> bool {
    0 <= i < l.legs.len() ==> (match l.legs[i] {
        LegView::Asking { attempt, .. } => attempt.chain != chain ==> {
            &&& exchange::target_looked(p, attempt, news, clock).leg == exchange::target_looked(
                q,
                attempt,
                news,
                clock,
            ).leg
            &&& exchange::target_looked(p, attempt, news, clock).action == exchange::target_looked(
                q,
                attempt,
                news,
                clock,
            ).action
        },
        LegView::Settled { .. } => true,
    })
}

/// Whether a record says that there was no answer, and why.
pub open spec fn is_failure(record: Tree) -> bool {
    exists|error: Seq<char>| record == #[trigger] lookup::failure_record(error)
}

/// Whether a record says that there was an answer, and which.
pub open spec fn is_answer(record: Tree) -> bool {
    exists|code: Seq<char>| record == #[trigger] lookup::code_record(code)
}

/// Whether each target of a lookup that is being asked is asked on the chain of its own name, with the
/// question for the address that was asked for, and each other one has a record; and whether any is
/// still being asked.
pub open spec fn faithful(p: ProxyView, l: LookupView) -> bool {
    &&& l.legs.len() == l.targets.len()
    &&& forall|i: int| 0 <= i < l.legs.len() ==> faithful_leg(p, l, i, #[trigger] l.legs[i])
    &&& !l.settled()
}

/// Whether a target that is being asked is asked on the chain of its own name, with the question for
/// the address that was asked for, or has a record.
pub open spec fn faithful_leg(p: ProxyView, l: LookupView, i: int, leg: LegView) -> bool {
    match leg {
        LegView::Asking { attempt, .. } => {
            &&& p.chain_named(l.targets[i]) == Some(attempt.chain)
            &&& attempt.payload == json::rendered_json(lookup::code_question(l.address))
        },
        LegView::Settled { record } => is_failure(record) || is_answer(record),
    }
}

/// Whether a step answers a lookup with what was found on each of its targets.
pub open spec fn answers_with(l: LookupView, legs: Seq<LegView>, turn: TurnView) -> bool {
    let last = LookupView { legs, ..l };
    &&& legs.len() == l.targets.len()
    &&& last.settled()
    &&& forall|i: int| 0 <= i < legs.len() ==> faithful_leg(turn.proxy, l, i, #[trigger] legs[i])
    &&& turn.action == (ActionView::Reply { status: 200, body: last.reply() })
}

/// Whether a step takes a lookup on, with the same request, or answers it, with what was found on each
/// of its targets.
pub open spec fn keeps_lookup(l: LookupView, turn: TurnView) -> bool {
    match turn.exchange {
        ExchangeView::Looking { lookup: next } => {
            &&& faithful(turn.proxy, next)
            &&& next.id == l.id
            &&& next.address == l.address
            &&& next.targets == l.targets
            &&& !(turn.action is Reply)
        },
        ExchangeView::Finished => exists|legs: Seq<LegView>| #[trigger] answers_with(l, legs, turn),
        _ => false,
    }
}

/// A lookup begins with the chains that the request names or with all there are, each asked as the
/// chain of its own name or settled.
pub proof fn law_a_lookup_begins_with_its_targets(p: ProxyView, request: Tree, now: u64)
    requires
        lookup::contract_params(request) is Ok,
    ensures
        keeps_lookup(lookup_of(p, request, now), exchange::lookup_begun(p, request, now)),
        forall|i: int|
            0 <= i < lookup_of(p, request, now).legs.len() ==> begins(
                #[trigger] lookup_of(p, request, now).legs[i],
            ),
{
    law_a_lookup_asks_every_target_at_once(p, request, now);
    let l = lookup_of(p, request, now);
    let turn = exchange::lookup_begun(p, request, now);
    assert forall|i: int| 0 <= i < l.legs.len() implies faithful_leg(
        turn.proxy,
        l,
        i,
        #[trigger] l.legs[i],
    ) && begins(l.legs[i]) by {
        assert(sets_out(p, l.targets[i], l.address, now, l.legs[i]));
        lemma_same_names(p, turn.proxy, l.targets[i], 0);
    }
    if l.settled() {
        assert(LookupView { legs: l.legs, ..l } == l);
        assert(answers_with(l, l.legs, turn));
    }
}

/// Whether a target, at the beginning of a lookup, is about to be asked or has failed.
pub open spec fn begins(leg: LegView) -> bool {
    match leg {
        LegView::Asking { awaits, .. } => awaits is Answer,
        LegView::Settled { record } => is_failure(record),
    }
}

/// Every step of a lookup takes it on with the same request, each target still on the chain of its own
/// name, or answers it with what was found on each of its targets.
pub proof fn law_a_lookup_answers_for_every_target(
    p: ProxyView,
    l: LookupView,
    target: int,
    news: NewsView,
    clock: Clock,
)
    requires
        exchange::ready(
            p,
            ExchangeView::Looking { lookup: l },
            EventView::Target { target, news },
            clock,
        ),
        faithful(p, l),
    ensures
        keeps_lookup(
            l,
            exchange::advanced(
                p,
                ExchangeView::Looking { lookup: l },
                EventView::Target { target, news },
                clock,
            ),
        ),
{
    let attempt = l.legs[target]->attempt;
    let awaits = l.legs[target]->awaits;
    assert(l.legs[target].valid(p));
    assert(faithful_leg(p, l, target, l.legs[target]));
    lemma_leg_stays_on_its_chain(p, attempt, awaits, news, clock);
    laws::lemma_target_looked_is_sound(p, attempt, awaits, news, clock);
    let step = exchange::target_looked(p, attempt, news, clock);
    let next = l.with_leg(target, step.leg);
    assert forall|i: int| 0 <= i < next.legs.len() implies faithful_leg(
        step.proxy,
        l,
        i,
        #[trigger] next.legs[i],
    ) by {
        assert(faithful_leg(p, l, i, l.legs[i]));
        lemma_same_names(p, step.proxy, l.targets[i], 0);
    }
    assert forall|i: int| 0 <= i < next.legs.len() implies faithful_leg(
        step.proxy,
        next,
        i,
        #[trigger] next.legs[i],
    ) by {
        assert(faithful_leg(step.proxy, l, i, next.legs[i]));
    }
    if next.settled() {
        assert(LookupView { legs: next.legs, ..l } == next);
        assert(answers_with(l, next.legs, exchange::gone_on(l, target, step)));
    }
}

/// Whether news of an endpoint lead to a record: an answer with code to the record of that code, and
/// everything else to the record of a failure.
pub open spec fn came_of(record: Tree, news: NewsView) -> bool {
    match news {
        NewsView::ReplyBody(Some(body)) => match lookup::code_answer(body) {
            lookup::CodeAnswerView::Code(code) => record == lookup::code_record(code),
            _ => is_failure(record),
        },
        _ => is_failure(record),
    }
}

/// A target is settled by news of its own alone, with the record that they lead to.
pub proof fn law_a_record_comes_of_its_own_target(
    p: ProxyView,
    attempt: AttemptView,
    news: NewsView,
    clock: Clock,
)
    ensures
        exchange::target_looked(p, attempt, news, clock).leg matches LegView::Settled { record }
            ==> came_of(record, news),
{
}

/// The record of an answer says that there is code exactly when the answer stands for some, and gives
/// the answer. The record of a failure says that there is none, and why.
pub proof fn law_a_record_says_whether_there_is_code(code: Seq<char>, error: Seq<char>)
    ensures
        lookup::code_record(code).member("exists"@) == Some(Tree::Bool(!lookup::no_code(code))),
        lookup::code_record(code).member("code"@) == Some(Tree::Text(code)),
        lookup::failure_record(error).member("exists"@) == Some(Tree::Bool(false)),
        lookup::failure_record(error).member("error"@) == Some(Tree::Text(error)),
{
    reveal_strlit("exists");
    reveal_strlit("code");
    reveal_strlit("error");
    assert("exists"@.len() != "code"@.len() && "exists"@.len() != "error"@.len());
}

/// The records of a lookup whose targets are settled are those of its targets, each under the target's
/// name, and no others. Where a name comes twice, the later target counts.
pub proof fn law_each_record_stands_under_its_own_name(
    targets: Seq<Seq<char>>,
    legs: Seq<LegView>,
    name: Seq<char>,
)
    requires
        legs.len() <= targets.len(),
        forall|i: int| 0 <= i < legs.len() ==> (#[trigger] legs[i]) is Settled,
    ensures
        exchange::records_of(targets, legs).contains_key(name) <==> among(
            targets,
            legs.len() as int,
            name,
        ),
        forall|i: int|
            0 <= i < legs.len() && targets[i] == name && (forall|j: int|
                i < j < legs.len() ==> (#[trigger] targets[j]) != name)
                ==> exchange::records_of(targets, legs)[name] == (#[trigger] legs[i])->record,
    decreases legs.len(),
{
    if legs.len() > 0 {
        let rest = legs.drop_last();
        let n = rest.len() as int;
        assert forall|i: int| 0 <= i < rest.len() implies (#[trigger] rest[i]) is Settled by {
            assert(legs[i] is Settled);
        }
        law_each_record_stands_under_its_own_name(targets, rest, name);
        assert(legs[n] is Settled);
        if among(targets, n, name) {
            let j = choose|j: int| 0 <= j < n && (#[trigger] targets[j]) == name;
            assert(among(targets, n + 1, name));
        }
        if targets[n] == name {
            assert(among(targets, n + 1, name));
        }
        assert forall|i: int|
            0 <= i < legs.len() && targets[i] == name && (forall|j: int|
                i < j < legs.len() ==> (#[trigger] targets[j]) != name) implies exchange::records_of(
            targets,
            legs,
        )[name] == (#[trigger] legs[i])->record by {
            if i < n {
                assert(targets[n] != name);
                assert(rest[i] == legs[i]);
            }
        }
    }
}

/// How far a request has come with the endpoint it is with: a pause, then a response, then its body.
pub open spec fn phase(awaits: Await) -> int {
    match awaits {
        Await::Wake => 0,
        Await::Answer => 1,
        Await::Body => 2,
    }
}

/// The steps that a target may still take, when no chain has more than a number of endpoints.
pub open spec fn leg_left(leg: LegView, most: nat) -> int {
    match leg {
        LegView::Asking { attempt, awaits } => 3 * most + 3 - (3 * attempt.offset + phase(awaits)),
        LegView::Settled { .. } => 0,
    }
}

/// The steps that a lookup may still take, when no chain has more than a number of endpoints.
pub open spec fn steps_left(legs: Seq<LegView>, most: nat) -> int
    decreases legs.len(),
{
    if legs.len() == 0 {
        0
    } else {
        steps_left(legs.drop_last(), most) + leg_left(legs.last(), most)
    }
}

/// Whether no chain has more than a number of endpoints.
pub open spec fn at_most(p: ProxyView, most: nat) -> bool {
    forall|c: int| 0 <= c < p.chains.len() ==> (#[trigger] p.chains[c]).1.endpoints.len() <= most
}

proof fn lemma_left_after_update(legs: Seq<LegView>, target: int, leg: LegView, most: nat)
    requires
        0 <= target < legs.len(),
    ensures
        steps_left(legs.update(target, leg), most) == steps_left(legs, most) - leg_left(
            legs[target],
            most,
        ) + leg_left(leg, most),
    decreases legs.len(),
{
    let rest = legs.drop_last();
    if target < rest.len() {
        lemma_left_after_update(rest, target, leg, most);
        assert(legs.update(target, leg).drop_last() =~= rest.update(target, leg));
    } else {
        assert(legs.update(target, leg).drop_last() =~= rest);
    }
}

pub(crate) proof fn lemma_left_is_counted(p: ProxyView, legs: Seq<LegView>, most: nat)
    requires
        at_most(p, most),
        forall|i: int| 0 <= i < legs.len() ==> (#[trigger] legs[i]).valid(p),
    ensures
        0 <= steps_left(legs, most) <= legs.len() * (3 * most + 3),
        (exists|i: int| 0 <= i < legs.len() && (#[trigger] legs[i]) is Asking) ==> 0 < steps_left(
            legs,
            most,
        ),
    decreases legs.len(),
{
    if legs.len() > 0 {
        let rest = legs.drop_last();
        assert forall|i: int| 0 <= i < rest.len() implies (#[trigger] rest[i]).valid(p) by {
            assert(legs[i].valid(p));
        }
        lemma_left_is_counted(p, rest, most);
        lemma_leg_left(p, legs[legs.len() - 1], most);
        let k = 3 * most + 3;
        let n = legs.len() as int;
        assert(n * k == (n - 1) * k + k) by (nonlinear_arith);
        if exists|i: int| 0 <= i < legs.len() && (#[trigger] legs[i]) is Asking {
            let i = choose|i: int| 0 <= i < legs.len() && (#[trigger] legs[i]) is Asking;
            if i < rest.len() {
                assert(rest[i] is Asking);
            }
        }
    }
}

proof fn lemma_leg_left(p: ProxyView, leg: LegView, most: nat)
    requires
        at_most(p, most),
        leg.valid(p),
    ensures
        0 <= leg_left(leg, most) <= 3 * most + 3,
        leg is Asking ==> 0 < leg_left(leg, most),
{
    if let LegView::Asking { attempt, awaits } = leg {
        assert(p.chains[attempt.chain].1.endpoints.len() <= most);
    }
}

/// A lookup comes to an end: every step brings it nearer, by at least one of the steps that are left.
/// So each endpoint of a target is asked at most once.
pub proof fn law_a_lookup_comes_to_an_end(
    p: ProxyView,
    l: LookupView,
    target: int,
    news: NewsView,
    clock: Clock,
    most: nat,
)
    requires
        exchange::ready(
            p,
            ExchangeView::Looking { lookup: l },
            EventView::Target { target, news },
            clock,
        ),
        at_most(p, most),
    ensures
        ({
            let step = exchange::target_looked(p, l.legs[target]->attempt, news, clock);
            steps_left(l.with_leg(target, step.leg).legs, most) < steps_left(l.legs, most)
        }),
{
    let attempt = l.legs[target]->attempt;
    let awaits = l.legs[target]->awaits;
    assert(l.legs[target].valid(p));
    let step = exchange::target_looked(p, attempt, news, clock);
    lemma_leg_left(p, l.legs[target], most);
    laws::lemma_found_in_range(
        p.endpoints(attempt.chain),
        attempt.start,
        attempt.offset,
        clock.instant,
    );
    laws::lemma_found_in_range(
        p.after_failure(attempt, clock).endpoints(attempt.chain),
        attempt.start,
        attempt.offset + 1,
        clock.instant,
    );
    lemma_left_after_update(l.legs, target, step.leg, most);
}

} // verus!
