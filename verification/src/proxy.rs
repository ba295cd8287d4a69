//! The proxy: what it knows of its chains and endpoints, and the steps it takes for its clients.

use crate::auth;
use crate::chain;
use crate::chain::ChainState;
use crate::chain::ChainView;
use crate::config::ChainsConfig;
use crate::endpoint;
use crate::endpoint::EndpointView;
use crate::endpoint::RpcEndpoint;
use crate::exchange;
use crate::exchange::Action;
use crate::exchange::Attempt;
use crate::exchange::Await;
use crate::exchange::Event;
use crate::exchange::Exchange;
use crate::exchange::Inquiry;
use crate::exchange::Leg;
use crate::exchange::LegTurn;
use crate::exchange::LegTurnView;
use crate::exchange::Lookup;
use crate::exchange::News;
use crate::exchange::ProxyView;
use crate::exchange::Turn;
use crate::exchange::TurnView;
use crate::health;
use crate::health::Clock;
use crate::health::EndpointHealthStore;
use crate::health::HealthEntry;
use crate::health::PersistedEndpointHealth;
use crate::json;
use crate::json::Json;
use crate::laws;
use crate::lookup;
use crate::string_map::StringMap;
use crate::text;
use hyper::http::HeaderMap;
use hyper::http::HeaderValue;
use vstd::prelude::*;

verus! {

/// A proxy in front of the endpoints of many chains.
pub struct RpcProxy {
    chains: Vec<(String, ChainState)>,
    verbose: u8,
    request_timeout: core::time::Duration,
    required_auth_token: Option<String>,
    health_store: Option<EndpointHealthStore>,
}

/// The views of a list of chains.
pub open spec fn chain_views(chains: Seq<(String, ChainState)>) -> Seq<(Seq<char>, ChainView)> {
    chains.map_values(|c: (String, ChainState)| (c.0@, c.1@))
}

impl View for RpcProxy {
    type V = ProxyView;

    closed spec fn view(&self) -> ProxyView {
        ProxyView {
            chains: chain_views(self.chains@),
            auth_token: text::opt_string(self.required_auth_token),
            store: endpoint::store_view(self.health_store),
            verbose: self.verbose,
            request_timeout: self.request_timeout,
        }
    }
}

impl Turn {
    /// The step with the state of the proxy behind it.
    pub open spec fn with(self, proxy: ProxyView) -> TurnView {
        TurnView {
            proxy,
            exchange: self.exchange@,
            action: self.action@,
            persist: self.persist,
        }
    }
}

impl LegTurn {
    /// The step with the state of the proxy behind it.
    pub open spec fn with(self, proxy: ProxyView) -> LegTurnView {
        LegTurnView { proxy, leg: self.leg@, action: self.action@, persist: self.persist }
    }
}

fn reply(status: u16, body: Vec<u8>, persist: bool) -> (r: Turn)
    ensures
        forall|proxy: ProxyView| #[trigger]
            r.with(proxy) == exchange::answered(proxy, status, body@, persist),
{
    Turn { exchange: Exchange::Finished, action: Action::Reply { status, body }, persist }
}

fn tell(status: u16, message: &str) -> (r: Turn)
    ensures
        forall|proxy: ProxyView| #[trigger]
            r.with(proxy) == exchange::told(proxy, status, message@),
{
    reply(status, message.as_bytes_vec(), false)
}

fn is_awaited(awaits: Await, news: &News) -> (r: bool)
    ensures
        r == exchange::awaited(awaits, news@),
{
    match awaits {
        Await::Answer => match news {
            News::Unreachable => true,
            News::Answered(_) => true,
            _ => false,
        },
        Await::Body => matches!(news, News::ReplyBody(_)),
        Await::Wake => matches!(news, News::Woke),
    }
}

fn is_settled(legs: &Vec<Leg>) -> (r: bool)
    ensures
        r == (forall|i: int| 0 <= i < legs@.len() ==> (#[trigger] exchange::leg_views(legs@)[i]) is Settled),
{
    let mut i: usize = 0;
    while i < legs.len()
        invariant
            i <= legs.len(),
            forall|j: int| 0 <= j < i ==> (#[trigger] exchange::leg_views(legs@)[j]) is Settled,
        decreases legs.len() - i,
    {
        if let Leg::Asking { .. } = &legs[i] {
            assert(exchange::leg_views(legs@)[i as int] is Asking);
            return false;
        }
        i += 1;
    }
    true
}

/// The reply of a lookup whose targets are settled.
fn answer(lookup: Lookup) -> (r: Vec<u8>)
    requires
        lookup.legs@.len() == lookup.targets@.len(),
    ensures
        r@ == lookup@.reply(),
{
    let Lookup { id, address, targets, legs } = lookup;
    let ghost all = exchange::leg_views(legs@);
    let ghost names = text::texts(targets@);
    let mut records: Vec<(String, Json)> = Vec::new();
    let mut i: usize = 0;
    assert(all.take(0) =~= Seq::empty());
    assert(json::member_trees(records@) =~= Map::empty());
    for leg in it: legs
        invariant
            it.seq() == legs@,
            i == it.index(),
            i <= targets.len(),
            all == exchange::leg_views(legs@),
            names == text::texts(targets@),
            legs@.len() == targets@.len(),
            json::member_trees(records@) == exchange::records_of(names, all.take(i as int)),
    {
        assert(i < targets.len());
        assert(all.take(i + 1).drop_last() =~= all.take(i as int));
        assert(all.take(i + 1).last() == leg@);
        if let Leg::Settled { record } = leg {
            let ghost before = records@;
            records.push((targets[i].clone(), record));
            assert(records@.drop_last() =~= before);
        }
        i += 1;
    }
    assert(all.take(all.len() as int) =~= all);
    lookup::answer_lookup(id, address.as_str(), records).render().as_bytes_vec()
}

impl RpcProxy {
    fn chain_position(&self, name: &str) -> (r: Option<usize>)
        ensures
            match r {
                Some(i) => self@.chain_named(name@) == Some(i as int) && i < self.chains@.len(),
                None => self@.chain_named(name@) is None,
            },
    {
        let mut i: usize = 0;
        while i < self.chains.len()
            invariant
                i <= self.chains.len(),
                self@.chain_named(name@) == exchange::chain_index(
                    self@.chains,
                    name@,
                    i as int,
                ),
            decreases self.chains.len() - i,
        {
            if text::same_text(self.chains[i].0.as_str(), name) {
                return Some(i);
            }
            i += 1;
        }
        None
    }

    /// Counts a hard failure of the endpoint that has a request, and says whether the store changed.
    fn fail(&mut self, attempt: &Attempt, clock: Clock) -> (r: bool)
        requires
            attempt@.valid(old(self)@, Await::Answer),
            old(self)@.endpoint_of(attempt@).failures < u32::MAX,
            clock.has_room(),
        ensures
            final(self)@ == old(self)@.after_failure(attempt@, clock),
            r == old(self)@.failure_persists(attempt@),
    {
        let ghost before = self@;
        let total: usize = self.chains[attempt.chain].1.endpoints.len();
        let i = chain::ring_place(attempt.start, attempt.offset, total);
        let r = self.chains[attempt.chain].1.endpoints[i].mark_hard_failure(
            &mut self.health_store,
            clock,
        );
        proof {
            assert(self@.chains[attempt.chain as int].1.endpoints =~= before.endpoints(
                attempt@.chain,
            ).update(i as int, before.endpoint_of(attempt@).failed(clock.instant)));
            assert(self@.chains =~= before.after_failure(attempt@, clock).chains);
        }
        r
    }

    /// Sends the endpoint that has a request to rest, which it asked for.
    fn limit(&mut self, attempt: &Attempt, clock: Clock)
        requires
            attempt@.valid(old(self)@, Await::Answer),
        ensures
            final(self)@ == old(self)@.after_rate_limit(attempt@, clock),
    {
        let ghost before = self@;
        let total: usize = self.chains[attempt.chain].1.endpoints.len();
        let i = chain::ring_place(attempt.start, attempt.offset, total);
        self.chains[attempt.chain].1.endpoints[i].mark_rate_limited(clock.instant);
        proof {
            let after = before.after_rate_limit(attempt@, clock);
            assert(self@.chains[attempt.chain as int].1.endpoints =~= after.endpoints(
                attempt@.chain,
            ));
            assert(self@.chains =~= after.chains);
        }
    }

    /// Forgets what is counted against the endpoint that has a request, and says whether the store
    /// changed.
    fn succeed(&mut self, attempt: &Attempt) -> (r: bool)
        requires
            attempt@.valid(old(self)@, Await::Answer),
        ensures
            final(self)@ == old(self)@.after_success(attempt@),
            r == old(self)@.success_persists(attempt@),
    {
        let ghost before = self@;
        let total: usize = self.chains[attempt.chain].1.endpoints.len();
        let i = chain::ring_place(attempt.start, attempt.offset, total);
        let r = self.chains[attempt.chain].1.endpoints[i].reset(&mut self.health_store);
        proof {
            let after = before.after_success(attempt@);
            assert(self@.chains[attempt.chain as int].1.endpoints =~= after.endpoints(
                attempt@.chain,
            ));
            assert(self@.chains =~= after.chains);
        }
        r
    }

    /// Looks for the next healthy endpoint for a request in the present pass.
    fn search(&mut self, attempt: &Attempt, now: u64) -> (r: Option<usize>)
        requires
            attempt@.valid(old(self)@, Await::Wake),
        ensures
            match r {
                Some(k) => exchange::next_offset(old(self)@, attempt@, now) == Some(k as int)
                    && k < old(self)@.endpoints(attempt@.chain).len(),
                None => exchange::next_offset(old(self)@, attempt@, now) is None,
            },
            final(self)@ == exchange::searched(old(self)@, attempt@, now),
    {
        let ghost before = self@;
        let r = self.chains[attempt.chain].1.find_healthy(attempt.start, attempt.offset, now);
        assert(self@.chains =~= exchange::searched(before, attempt@, now).chains);
        r
    }

    /// Where a request starts that comes to a chain now.
    fn count(&mut self, chain: usize) -> (r: usize)
        requires
            chain < old(self)@.chains.len(),
            old(self)@.endpoints(chain as int).len() > 0,
        ensures
            r == old(self)@.chains[chain as int].1.first_place(),
            r < old(self)@.endpoints(chain as int).len(),
            final(self)@ == old(self)@.with_chain(
                chain as int,
                old(self)@.chains[chain as int].1.counted(),
            ),
    {
        let ghost before = self@;
        let r = self.chains[chain].1.next_start();
        assert(self@.chains =~= before.with_chain(
            chain as int,
            before.chains[chain as int].1.counted(),
        ).chains);
        r
    }

    /// The action of sending a request to the endpoint it has come to.
    fn post(&self, attempt: &Attempt) -> (r: Action)
        requires
            attempt@.valid(self@, Await::Answer),
        ensures
            r@ == exchange::post(self@, attempt@),
    {
        let total: usize = self.chains[attempt.chain].1.endpoints.len();
        let i = chain::ring_place(attempt.start, attempt.offset, total);
        Action::Post {
            url: self.chains[attempt.chain].1.endpoints[i].address().to_owned(),
            payload: attempt.payload.clone(),
        }
    }

    /// Sends a document to the next healthy endpoint of the pass, or ends the pass.
    fn seek(&mut self, attempt: Attempt, now: u64, persist: bool) -> (r: Turn)
        requires
            attempt@.valid(old(self)@, Await::Wake),
        ensures
            r.with(final(self)@) == (TurnView {
                persist,
                ..exchange::sought(old(self)@, attempt@, now)
            }),
    {
        let ghost before = self@;
        match self.search(&attempt, now) {
            Some(k) => {
                let found = Attempt { offset: k, ..attempt };
                proof {
                    lemma_searched_keeps_urls(before, attempt@, now);
                }
                let action = self.post(&found);
                Turn {
                    exchange: Exchange::Forwarding { attempt: found, awaits: Await::Answer },
                    action,
                    persist,
                }
            },
            None => {
                assert(self@.chains =~= before.chains);
                let total: usize = self.chains[attempt.chain].1.endpoints.len();
                let start: usize = if total == 1 {
                    0
                } else {
                    chain::ring_place(attempt.start, 1, total)
                };
                let next = Attempt { start, offset: 0, ..attempt };
                Turn {
                    exchange: Exchange::Forwarding { attempt: next, awaits: Await::Wake },
                    action: Action::Sleep { millis: exchange::PASS_PAUSE },
                    persist,
                }
            },
        }
    }
}

impl RpcProxy {
    /// Lets a document pause before it goes on to the next endpoint.
    fn pause_forward(attempt: Attempt, millis: u64, persist: bool) -> (r: Turn)
        requires
            attempt.offset < usize::MAX,
        ensures
            forall|proxy: ProxyView| #[trigger]
                r.with(proxy) == exchange::forward_paused(proxy, attempt@, millis, persist),
    {
        let next = Attempt { offset: attempt.offset + 1, ..attempt };
        Turn {
            exchange: Exchange::Forwarding { attempt: next, awaits: Await::Wake },
            action: Action::Sleep { millis },
            persist,
        }
    }

    /// Takes a document on when something has come of sending it to an endpoint.
    fn proxy_json_to_chain(
        &mut self,
        attempt: Attempt,
        awaits: Await,
        news: News,
        clock: Clock,
    ) -> (r: Turn)
        requires
            attempt@.valid(old(self)@, awaits),
            exchange::awaited(awaits, news@),
            exchange::countable(old(self)@, attempt@, awaits),
            clock.has_room(),
        ensures
            r.with(final(self)@) == exchange::forwarded(old(self)@, attempt@, news@, clock),
    {
        let total: usize = self.chains[attempt.chain].1.endpoints.len();
        assert(attempt.offset <= total);
        match news {
            News::Answered(status) => if 200 <= status && status < 300 {
                Turn {
                    exchange: Exchange::Forwarding { attempt, awaits: Await::Body },
                    action: Action::ReadReply,
                    persist: false,
                }
            } else if status == 429 {
                self.limit(&attempt, clock);
                RpcProxy::pause_forward(
                    attempt,
                    exchange::RATE_LIMIT_PAUSE + exchange::ATTEMPT_PAUSE,
                    false,
                )
            } else {
                let persist = self.fail(&attempt, clock);
                RpcProxy::pause_forward(attempt, exchange::ATTEMPT_PAUSE, persist)
            },
            News::ReplyBody(Some(body)) => {
                let persist = self.succeed(&attempt);
                reply(200, body, persist)
            },
            News::ReplyBody(None) => {
                let persist = self.fail(&attempt, clock);
                let next = Attempt { offset: attempt.offset + 1, ..attempt };
                self.seek(next, clock.instant, persist)
            },
            News::Woke => self.seek(attempt, clock.instant, false),
            _ => {
                let persist = self.fail(&attempt, clock);
                RpcProxy::pause_forward(attempt, exchange::ATTEMPT_PAUSE, persist)
            },
        }
    }

    /// Puts the question of a lookup to the next healthy endpoint of a target, or says that the target
    /// has failed.
    fn look_at(&mut self, attempt: Attempt, now: u64, persist: bool) -> (r: LegTurn)
        requires
            attempt@.valid(old(self)@, Await::Wake),
        ensures
            r.with(final(self)@) == (LegTurnView {
                persist,
                ..exchange::looked_at(old(self)@, attempt@, now)
            }),
    {
        let ghost before = self@;
        match self.search(&attempt, now) {
            Some(k) => {
                let found = Attempt { offset: k, ..attempt };
                proof {
                    lemma_searched_keeps_urls(before, attempt@, now);
                }
                let action = self.post(&found);
                LegTurn {
                    leg: Leg::Asking { attempt: found, awaits: Await::Answer },
                    action,
                    persist,
                }
            },
            None => {
                assert(self@.chains =~= before.chains);
                fail_target("all endpoints failed", persist)
            },
        }
    }

    /// Lets the question of a lookup set out for a target.
    fn ask(&mut self, target: &str, address: &str, now: u64) -> (r: LegTurn)
        ensures
            r.with(final(self)@) == exchange::asked(old(self)@, target@, address@, now),
    {
        match self.chain_position(target) {
            Some(chain) => {
                if self.chains[chain].1.endpoints.len() == 0 {
                    return fail_target("no endpoints configured", false);
                }
                let payload = lookup::ask_for_code(address).render();
                let start = self.count(chain);
                self.look_at(Attempt { chain, payload, start, offset: 0 }, now, false)
            },
            None => fail_target("chain not configured", false),
        }
    }
}

fn fail_target(reason: &str, persist: bool) -> (r: LegTurn)
    ensures
        forall|proxy: ProxyView| #[trigger]
            r.with(proxy) == (LegTurnView {
                persist,
                ..exchange::target_failed(proxy, reason@)
            }),
{
    LegTurn {
        leg: Leg::Settled { record: lookup::record_failure(reason) },
        action: Action::AwaitOthers,
        persist,
    }
}

impl RpcProxy {
    /// Lets the question of a lookup pause before it goes on to the next endpoint of a target.
    fn pause_lookup(attempt: Attempt, persist: bool) -> (r: LegTurn)
        requires
            attempt.offset < usize::MAX,
        ensures
            forall|proxy: ProxyView| #[trigger]
                r.with(proxy) == exchange::lookup_paused(proxy, attempt@, persist),
    {
        let next = Attempt { offset: attempt.offset + 1, ..attempt };
        LegTurn {
            leg: Leg::Asking { attempt: next, awaits: Await::Wake },
            action: Action::Sleep { millis: exchange::ATTEMPT_PAUSE },
            persist,
        }
    }

    /// Takes a target of a lookup on when something has come of putting the question to one of its
    /// endpoints.
    fn fetch_contract_code(
        &mut self,
        attempt: Attempt,
        awaits: Await,
        news: News,
        clock: Clock,
    ) -> (r: LegTurn)
        requires
            attempt@.valid(old(self)@, awaits),
            exchange::awaited(awaits, news@),
            exchange::countable(old(self)@, attempt@, awaits),
            clock.has_room(),
        ensures
            r.with(final(self)@) == exchange::target_looked(old(self)@, attempt@, news@, clock),
    {
        let total: usize = self.chains[attempt.chain].1.endpoints.len();
        assert(attempt.offset <= total);
        match news {
            News::Answered(status) => if 200 <= status && status < 300 {
                LegTurn {
                    leg: Leg::Asking { attempt, awaits: Await::Body },
                    action: Action::ReadReply,
                    persist: false,
                }
            } else if status == 429 {
                self.limit(&attempt, clock);
                RpcProxy::pause_lookup(attempt, false)
            } else {
                let persist = self.fail(&attempt, clock);
                RpcProxy::pause_lookup(attempt, persist)
            },
            News::ReplyBody(body) => {
                let answer: lookup::CodeAnswer = match body {
                    Some(body) => lookup::read_code_answer(body.as_slice()),
                    None => lookup::CodeAnswer::Unusable,
                };
                match answer {
                    lookup::CodeAnswer::Code(code) => {
                        let persist = self.succeed(&attempt);
                        LegTurn {
                            leg: Leg::Settled { record: lookup::record_code(code) },
                            action: Action::AwaitOthers,
                            persist,
                        }
                    },
                    lookup::CodeAnswer::Refused(message) => fail_target(message.as_str(), false),
                    lookup::CodeAnswer::Unusable => {
                        let persist = self.fail(&attempt, clock);
                        let next = Attempt { offset: attempt.offset + 1, ..attempt };
                        self.look_at(next, clock.instant, persist)
                    },
                }
            },
            News::Woke => self.look_at(attempt, clock.instant, false),
            News::Unreachable => {
                let persist = self.fail(&attempt, clock);
                RpcProxy::pause_lookup(attempt, persist)
            },
        }
    }

    /// Takes a lookup on when there is news of one of its targets.
    fn look_on(&mut self, lookup: Lookup, target: usize, news: News, clock: Clock) -> (r: Turn)
        requires
            exchange::ready(
                old(self)@,
                exchange::ExchangeView::Looking { lookup: lookup@ },
                exchange::EventView::Target { target: target as int, news: news@ },
                clock,
            ),
        ensures
            r.with(final(self)@) == exchange::looked(
                old(self)@,
                lookup@,
                target as int,
                news@,
                clock,
            ),
    {
        let ghost before = lookup@;
        let Lookup { id, address, targets, legs } = lookup;
        let mut legs = legs;
        let mut leg = Leg::Settled { record: Json::Null };
        assert(before.legs[target as int].valid(self@));
        std::mem::swap(&mut leg, &mut legs[target]);
        match leg {
            Leg::Asking { attempt, awaits } => {
                let step = self.fetch_contract_code(attempt, awaits, news, clock);
                legs[target] = step.leg;
                let next = Lookup { id, address, targets, legs };
                assert(next@.legs =~= before.with_leg(target as int, step.leg@).legs);
                if is_settled(&next.legs) {
                    reply(200, answer(next), step.persist)
                } else {
                    Turn {
                        exchange: Exchange::Looking { lookup: next },
                        action: step.action,
                        persist: step.persist,
                    }
                }
            },
            // There is no news of a target that is settled.
            Leg::Settled { .. } => {
                assert(false);
                Turn {
                    exchange: Exchange::Finished,
                    action: Action::AwaitOthers,
                    persist: false,
                }
            },
        }
    }

    /// The names of the chains.
    fn chain_names(&self) -> (r: Vec<String>)
        ensures
            text::texts(r@) == self@.chain_names(),
    {
        let mut names: Vec<String> = Vec::new();
        let mut i: usize = 0;
        while i < self.chains.len()
            invariant
                i <= self.chains.len(),
                text::texts(names@) == self@.chain_names().take(i as int),
            decreases self.chains.len() - i,
        {
            let ghost before = names@;
            names.push(self.chains[i].0.clone());
            proof {
                let all = self@.chain_names();
                assert(text::texts(names@) =~= text::texts(before).push(all[i as int]));
                assert(all.take(i + 1) =~= all.take(i as int).push(all[i as int]));
            }
            i += 1;
        }
        assert(self@.chain_names().take(i as int) =~= self@.chain_names());
        names
    }

    /// Begins to look an address up, as a request asks that is read as a JSON document.
    fn handle_contract_chains(&mut self, request: Json, now: u64) -> (r: Turn)
        ensures
            r.with(final(self)@) == exchange::lookup_begun(old(self)@, request.tree(), now),
    {
        let params = lookup::extract_contract_params(&request);
        let id = request.into_member("id");
        match params {
            Ok((address, wanted)) => {
                let targets: Vec<String> = match wanted {
                    Some(list) => if list.len() > 0 {
                        list
                    } else {
                        self.chain_names()
                    },
                    None => self.chain_names(),
                };
                let ghost start = self@;
                let ghost names = text::texts(targets@);
                let mut legs: Vec<Leg> = Vec::new();
                let mut inquiries: Vec<Inquiry> = Vec::new();
                let mut i: usize = 0;
                proof {
                    assert(names.take(0) =~= Seq::empty());
                    assert(exchange::leg_views(legs@) =~= Seq::empty());
                    assert(exchange::inquiry_views(inquiries@) =~= Seq::empty());
                }
                while i < targets.len()
                    invariant
                        i <= targets.len(),
                        names == text::texts(targets@),
                        legs@.len() == i,
                        (exchange::AskedView {
                            proxy: self@,
                            legs: exchange::leg_views(legs@),
                            inquiries: exchange::inquiry_views(inquiries@),
                        }) == exchange::all_asked(start, names.take(i as int), address@, now),
                    decreases targets.len() - i,
                {
                    let ghost legs_before = legs@;
                    let ghost inquiries_before = inquiries@;
                    assert(names.take(i + 1).drop_last() =~= names.take(i as int));
                    assert(names.take(i + 1).last() == targets@[i as int]@);
                    let step = self.ask(targets[i].as_str(), address.as_str(), now);
                    if let Action::Post { url, payload } = step.action {
                        inquiries.push(Inquiry { target: i, url, payload });
                        assert(exchange::inquiry_views(inquiries@) =~= exchange::inquiry_views(
                            inquiries_before,
                        ).push(inquiries@.last()@));
                    }
                    legs.push(step.leg);
                    assert(exchange::leg_views(legs@) =~= exchange::leg_views(legs_before).push(
                        step.leg@,
                    ));
                    i += 1;
                }
                assert(names.take(i as int) =~= names);
                let begun = Lookup { id, address, targets, legs };
                if is_settled(&begun.legs) {
                    reply(200, answer(begun), false)
                } else {
                    Turn {
                        exchange: Exchange::Looking { lookup: begun },
                        action: Action::Ask { inquiries },
                        persist: false,
                    }
                }
            },
            Err(message) => {
                let body = lookup::refuse_lookup(id, message.as_str()).render();
                reply(400, body.as_bytes_vec(), false)
            },
        }
    }

    /// Takes a request on when its body has been read.
    fn receive(&mut self, segment: &str, body: Option<Vec<u8>>, now: u64) -> (r: Turn)
        ensures
            r.with(final(self)@) == exchange::received(
                old(self)@,
                segment@,
                exchange::opt_bytes(body),
                now,
            ),
    {
        let bytes: Vec<u8> = match body {
            Some(bytes) => bytes,
            None => {
                return tell(400, "Invalid request body");
            },
        };
        let looks_up = text::same_text(segment, "sr_contract_chains");
        let position = self.chain_position(segment);
        if !looks_up && position.is_none() {
            return tell(404, "Chain not supported");
        }
        if bytes.len() == 0 {
            return tell(400, "Request body cannot be empty");
        }
        match Json::parse(bytes.as_slice()) {
            Ok(request) => if looks_up {
                self.handle_contract_chains(request, now)
            } else {
                Turn {
                    exchange: Exchange::Ready {
                        chain: position.unwrap(),
                        payload: request.render(),
                    },
                    action: Action::Proceed,
                    persist: false,
                }
            },
            Err(_) => tell(400, "Invalid JSON in request body"),
        }
    }

    /// Whether a request stands among the endpoints of one of the chains.
    fn holds_attempt(&self, attempt: &Attempt, awaits: Await) -> (r: bool)
        ensures
            r == attempt@.valid(self@, awaits),
    {
        if attempt.chain >= self.chains.len() {
            return false;
        }
        let total: usize = self.chains[attempt.chain].1.endpoints.len();
        if attempt.start >= total || attempt.offset > total {
            return false;
        }
        match awaits {
            Await::Wake => true,
            _ => attempt.offset < total,
        }
    }

    /// Whether a request stands among the endpoints of one of the chains, and one more failure of
    /// the endpoint that has it can be counted.
    fn accepts_attempt(&self, attempt: &Attempt, awaits: Await) -> (r: bool)
        ensures
            r == (attempt@.valid(self@, awaits) && exchange::countable(self@, attempt@, awaits)),
    {
        if !self.holds_attempt(attempt, awaits) {
            return false;
        }
        match awaits {
            Await::Wake => true,
            _ => {
                let total: usize = self.chains[attempt.chain].1.endpoints.len();
                let i = chain::ring_place(attempt.start, attempt.offset, total);
                self.chains[attempt.chain].1.endpoints[i].can_count()
            },
        }
    }

    /// Whether every target of a lookup that is not settled stands among the endpoints of one of the
    /// chains.
    fn holds_legs(&self, legs: &Vec<Leg>) -> (r: bool)
        ensures
            r == (forall|i: int|
                0 <= i < legs@.len() ==> (#[trigger] exchange::leg_views(legs@)[i]).valid(self@)),
    {
        let mut i: usize = 0;
        while i < legs.len()
            invariant
                i <= legs.len(),
                forall|j: int|
                    0 <= j < i ==> (#[trigger] exchange::leg_views(legs@)[j]).valid(self@),
            decreases legs.len() - i,
        {
            assert(exchange::leg_views(legs@)[i as int] == legs@[i as int]@);
            if let Leg::Asking { attempt, awaits } = &legs[i] {
                if !self.holds_attempt(attempt, *awaits) {
                    return false;
                }
            }
            i += 1;
        }
        true
    }

    /// Whether a lookup can go on with news of one of its targets.
    fn accepts_target(&self, lookup: &Lookup, target: usize, news: &News) -> (r: bool)
        ensures
            r == ({
                let exchange = exchange::ExchangeView::Looking { lookup: lookup@ };
                let event = exchange::EventView::Target { target: target as int, news: news@ };
                &&& exchange.valid(self@)
                &&& exchange.expects(event)
                &&& exchange.can_go_on(self@, event)
            }),
    {
        if lookup.legs.len() != lookup.targets.len() || target >= lookup.legs.len() {
            return false;
        }
        if !self.holds_legs(&lookup.legs) {
            return false;
        }
        assert(lookup@.legs[target as int] == lookup.legs@[target as int]@);
        match &lookup.legs[target] {
            Leg::Asking { attempt, awaits } => {
                is_awaited(*awaits, news) && self.accepts_attempt(attempt, *awaits)
            },
            Leg::Settled { .. } => false,
        }
    }

    /// Whether a step can be taken.
    pub fn accepts(&self, exchange: &Exchange, event: &Event, clock: Clock) -> (r: bool)
        ensures
            r == exchange::ready(self@, exchange@, event@, clock),
    {
        if clock.unix > u64::MAX - health::HARD_FAILURE_COOLDOWN {
            return false;
        }
        match exchange {
            Exchange::Reading { .. } => matches!(event, Event::Body(_)),
            Exchange::Ready { chain, .. } => {
                matches!(event, Event::Proceed) && *chain < self.chains.len()
                    && self.chains[*chain].1.endpoints.len() > 0
            },
            Exchange::Forwarding { attempt, awaits } => match event {
                Event::News(news) => is_awaited(*awaits, news) && self.accepts_attempt(
                    attempt,
                    *awaits,
                ),
                _ => false,
            },
            Exchange::Looking { lookup } => match event {
                Event::Target { target, news } => self.accepts_target(lookup, *target, news),
                _ => false,
            },
            Exchange::Finished => false,
        }
    }

    /// Takes a request on when something has come of what was to be done for it.
    pub fn advance(&mut self, exchange: Exchange, event: Event, clock: Clock) -> (r: Turn)
        requires
            exchange::ready(old(self)@, exchange@, event@, clock),
        ensures
            r.with(final(self)@) == exchange::advanced(old(self)@, exchange@, event@, clock),
            r.exchange@.valid(final(self)@),
            laws::same_shape(old(self)@, final(self)@),
    {
        proof {
            laws::law_steps_are_sound(self@, exchange@, event@, clock);
        }
        match exchange {
            Exchange::Reading { segment } => match event {
                Event::Body(body) => self.receive(segment.as_str(), body, clock.instant),
                _ => Turn {
                    exchange: Exchange::Reading { segment },
                    action: Action::ReadBody,
                    persist: false,
                },
            },
            Exchange::Ready { chain, payload } => {
                let start = self.count(chain);
                self.seek(Attempt { chain, payload, start, offset: 0 }, clock.instant, false)
            },
            Exchange::Forwarding { attempt, awaits } => match event {
                Event::News(news) => self.proxy_json_to_chain(attempt, awaits, news, clock),
                _ => Turn {
                    exchange: Exchange::Forwarding { attempt, awaits },
                    action: Action::ReadBody,
                    persist: false,
                },
            },
            Exchange::Looking { lookup } => match event {
                Event::Target { target, news } => self.look_on(lookup, target, news, clock),
                _ => Turn {
                    exchange: Exchange::Looking { lookup },
                    action: Action::ReadBody,
                    persist: false,
                },
            },
            Exchange::Finished => Turn {
                exchange: Exchange::Finished,
                action: Action::ReadBody,
                persist: false,
            },
        }
    }
}

/// An endpoint at the start of the proxy: one that is kept as dead rests for as long as it still is.
pub open spec fn initial_endpoint(
    store: Option<Map<Seq<char>, HealthEntry>>,
    chain_id: Seq<char>,
    url: Seq<char>,
    clock: Clock,
) -> EndpointView {
    let fresh = EndpointView::fresh(chain_id, url);
    match store {
        Some(entries) => if entries.contains_key(fresh.key())
            && entries[fresh.key()].unavailable_until > clock.unix {
            (EndpointView { failures: health::HARD_FAILURE_THRESHOLD as nat, ..fresh }).resting(
                clock.instant,
                (entries[fresh.key()].unavailable_until - clock.unix) as u64,
            )
        } else {
            fresh
        },
        None => fresh,
    }
}

/// The endpoints of a chain at the start of the proxy.
pub open spec fn initial_endpoints(
    store: Option<Map<Seq<char>, HealthEntry>>,
    chain_id: Seq<char>,
    urls: Seq<Seq<char>>,
    clock: Clock,
) -> Seq<EndpointView> {
    urls.map_values(|url: Seq<char>| initial_endpoint(store, chain_id, url, clock))
}

/// The chains at the start of the proxy, in the order of their names.
pub open spec fn initial_chains(
    store: Option<Map<Seq<char>, HealthEntry>>,
    names: Seq<Seq<char>>,
    urls: Map<Seq<char>, Seq<Seq<char>>>,
    clock: Clock,
) -> Seq<(Seq<char>, ChainView)> {
    names.map_values(
        |name: Seq<char>|
            (
                name,
                ChainView {
                    endpoints: initial_endpoints(store, name, urls[name], clock),
                    current_index: 0,
                },
            ),
    )
}

/// Whether a proxy serves the chains of a configuration, and no others, each from its first endpoint
/// on, with its endpoints as they are at the start.
pub open spec fn serves(
    proxy: ProxyView,
    store: Option<Map<Seq<char>, HealthEntry>>,
    urls: Map<Seq<char>, Seq<Seq<char>>>,
    clock: Clock,
) -> bool {
    forall|name: Seq<char>|
        match #[trigger] proxy.chain_named(name) {
            Some(c) => {
                &&& urls.contains_key(name)
                &&& proxy.chains[c] == (
                    name,
                    ChainView {
                        endpoints: initial_endpoints(store, name, urls[name], clock),
                        current_index: 0,
                    },
                )
            },
            None => !urls.contains_key(name),
        }
}

proof fn lemma_serves(
    proxy: ProxyView,
    store: Option<Map<Seq<char>, HealthEntry>>,
    names: Seq<Seq<char>>,
    urls: Map<Seq<char>, Seq<Seq<char>>>,
    clock: Clock,
)
    requires
        proxy.chains == initial_chains(store, names, urls, clock),
        forall|name: Seq<char>| #[trigger] urls.contains_key(name) <==> names.contains(name),
    ensures
        serves(proxy, store, urls, clock),
{
    assert forall|name: Seq<char>|
        match #[trigger] proxy.chain_named(name) {
            Some(c) => {
                &&& urls.contains_key(name)
                &&& proxy.chains[c] == (
                    name,
                    ChainView {
                        endpoints: initial_endpoints(store, name, urls[name], clock),
                        current_index: 0,
                    },
                )
            },
            None => !urls.contains_key(name),
        } by {
        laws::lemma_chain_index(proxy.chains, name, 0);
        match proxy.chain_named(name) {
            Some(c) => {
                assert(names[c] == name);
            },
            None => {
                if names.contains(name) {
                    let i = names.index_of(name);
                    assert(proxy.chains[i].0 == name);
                }
            },
        }
    }
}

/// The store at the start of the proxy: what was kept, as far as it is still in force.
pub open spec fn initial_store(kept: Option<Map<Seq<char>, HealthEntry>>, unix: u64) -> Option<
    Map<Seq<char>, HealthEntry>,
> {
    match kept {
        Some(entries) => Some(health::in_force(entries, unix)),
        None => None,
    }
}

/// The view of optional entries.
pub open spec fn opt_entries(kept: Option<StringMap<PersistedEndpointHealth>>) -> Option<
    Map<Seq<char>, HealthEntry>,
> {
    match kept {
        Some(entries) => Some(entries@),
        None => None,
    }
}

fn build_endpoint(
    store: &mut Option<EndpointHealthStore>,
    chain_id: &str,
    url: &str,
    clock: Clock,
) -> (r: RpcEndpoint)
    requires
        endpoint::store_view(*old(store)) matches Some(entries) ==> entries == health::in_force(
            entries,
            clock.unix,
        ),
    ensures
        r@ == initial_endpoint(endpoint::store_view(*old(store)), chain_id@, url@, clock),
        endpoint::store_view(*final(store)) == endpoint::store_view(*old(store)),
{
    let mut built = RpcEndpoint::for_chain(chain_id.to_owned(), url.to_owned());
    if let Some(store) = store {
        let ghost before = store@;
        let (remaining, _) = store.remaining_dead_duration(chain_id, url, clock.unix);
        proof {
            let key = health::key_of(chain_id@, url@);
            assert(before.contains_key(key) ==> health::in_force(before, clock.unix).contains_key(
                key,
            ));
        }
        if let Some(unavailable_for) = remaining {
            built.restore_dead_until(unavailable_for, clock.instant);
        }
    }
    built
}

fn build_endpoints(
    store: &mut Option<EndpointHealthStore>,
    chain_id: &str,
    urls: &Vec<String>,
    clock: Clock,
) -> (r: Vec<RpcEndpoint>)
    requires
        endpoint::store_view(*old(store)) matches Some(entries) ==> entries == health::in_force(
            entries,
            clock.unix,
        ),
    ensures
        chain::endpoint_views(r@) == initial_endpoints(
            endpoint::store_view(*old(store)),
            chain_id@,
            urls.deep_view(),
            clock,
        ),
        endpoint::store_view(*final(store)) == endpoint::store_view(*old(store)),
{
    let mut endpoints: Vec<RpcEndpoint> = Vec::new();
    let mut i: usize = 0;
    let ghost goal = initial_endpoints(
        endpoint::store_view(*store),
        chain_id@,
        urls.deep_view(),
        clock,
    );
    while i < urls.len()
        invariant
            i <= urls.len(),
            endpoint::store_view(*store) matches Some(entries) ==> entries == health::in_force(
                entries,
                clock.unix,
            ),
            endpoint::store_view(*store) == endpoint::store_view(*old(store)),
            goal == initial_endpoints(
                endpoint::store_view(*store),
                chain_id@,
                urls.deep_view(),
                clock,
            ),
            chain::endpoint_views(endpoints@) == goal.take(i as int),
        decreases urls.len() - i,
    {
        let ghost before = endpoints@;
        let built = build_endpoint(store, chain_id, urls[i].as_str(), clock);
        endpoints.push(built);
        proof {
            assert(urls.deep_view()[i as int] == urls@[i as int]@);
            assert(chain::endpoint_views(endpoints@) =~= chain::endpoint_views(before).push(
                goal[i as int],
            ));
            assert(goal.take(i + 1) =~= goal.take(i as int).push(goal[i as int]));
        }
        i += 1;
    }
    assert(goal.take(i as int) =~= goal);
    endpoints
}

impl RpcProxy {
    /// A proxy that keeps nothing of the health of its endpoints.
    pub fn with_timeout(
        config: &ChainsConfig,
        verbose: u8,
        request_timeout: core::time::Duration,
        required_auth_token: Option<String>,
    ) -> (r: RpcProxy)
        ensures
            r@ == (ProxyView {
                chains: initial_chains(
                    None,
                    config.key_list(),
                    config@,
                    Clock { instant: 0, unix: 0 },
                ),
                auth_token: text::opt_string(required_auth_token),
                store: None,
                verbose,
                request_timeout,
            }),
            serves(r@, None, config@, Clock { instant: 0, unix: 0 }),
    {
        RpcProxy::with_health_store(
            config,
            verbose,
            request_timeout,
            required_auth_token,
            None,
            Clock { instant: 0, unix: 0 },
        )
    }

    /// A proxy that starts from what was kept of the health of its endpoints, if anything is to be
    /// kept.
    pub fn with_health_store(
        config: &ChainsConfig,
        verbose: u8,
        request_timeout: core::time::Duration,
        required_auth_token: Option<String>,
        kept: Option<StringMap<PersistedEndpointHealth>>,
        clock: Clock,
    ) -> (r: RpcProxy)
        ensures
            r@ == (ProxyView {
                chains: initial_chains(
                    initial_store(opt_entries(kept), clock.unix),
                    config.key_list(),
                    config@,
                    clock,
                ),
                auth_token: text::opt_string(required_auth_token),
                store: initial_store(opt_entries(kept), clock.unix),
                verbose,
                request_timeout,
            }),
            serves(r@, initial_store(opt_entries(kept), clock.unix), config@, clock),
    {
        let mut store: Option<EndpointHealthStore> = match kept {
            Some(entries) => Some(EndpointHealthStore::load(entries, clock.unix)),
            None => None,
        };
        let ghost initial = endpoint::store_view(store);
        proof {
            if let Some(entries) = opt_entries(kept) {
                let once = health::in_force(entries, clock.unix);
                assert(health::in_force(once, clock.unix) =~= once);
            }
        }
        let mut chains: Vec<(String, ChainState)> = Vec::new();
        let ghost goal = initial_chains(initial, config.key_list(), config@, clock);
        let n: usize = config.len();
        let mut i: usize = 0;
        while i < n
            invariant
                i <= n == config.key_list().len(),
                initial matches Some(entries) ==> entries == health::in_force(entries, clock.unix),
                endpoint::store_view(store) == initial,
                goal == initial_chains(initial, config.key_list(), config@, clock),
                chain_views(chains@) == goal.take(i as int),
            decreases n - i,
        {
            let ghost before = chains@;
            let (chain_id, urls) = config.entry(i);
            let endpoints = build_endpoints(&mut store, chain_id, urls, clock);
            chains.push((chain_id.to_owned(), ChainState { endpoints, current_index: 0 }));
            proof {
                assert(chain_views(chains@) =~= chain_views(before).push(goal[i as int]));
                assert(goal.take(i + 1) =~= goal.take(i as int).push(goal[i as int]));
            }
            i += 1;
        }
        assert(goal.take(i as int) =~= goal);
        let r = RpcProxy {
            chains,
            verbose,
            request_timeout,
            required_auth_token,
            health_store: store,
        };
        proof {
            lemma_serves(r@, initial, config.key_list(), config@, clock);
        }
        r
    }

    /// The state of the chain that has the given name.
    pub fn get_chain_state(&self, chain_id: &str) -> (r: Option<&ChainState>)
        ensures
            match r {
                Some(state) => self@.chain_named(chain_id@) matches Some(i) && state@
                    == self@.chains[i].1,
                None => self@.chain_named(chain_id@) is None,
            },
    {
        match self.chain_position(chain_id) {
            Some(i) => Some(&self.chains[i].1),
            None => None,
        }
    }

    /// The endpoints that are to be kept as dead, if any are kept.
    pub fn health_entries(&self) -> (r: Option<&StringMap<PersistedEndpointHealth>>)
        ensures
            match r {
                Some(entries) => self@.store == Some(entries@),
                None => self@.store is None,
            },
    {
        match &self.health_store {
            Some(store) => Some(store.entries()),
            None => None,
        }
    }

    /// The token that a request presents.
    pub fn extract_auth_token(headers: &HeaderMap<HeaderValue>, query: Option<&str>) -> (r: Option<
        String,
    >)
        ensures
            text::opt_string(r) == auth::request_token(
                auth::header_fields(*headers),
                text::opt_text(query),
            ),
            // A token of plain characters that stands in the query alone is presented.
            forall|token: Seq<char>| #[trigger]
                auth::presents_in_query(
                    auth::header_fields(*headers),
                    text::opt_text(query),
                    token,
                ) ==> text::opt_string(r) == Some(token),
    {
        auth::read_token(headers, query)
    }

    /// Whether a request presents the token that is expected.
    pub fn is_authorized(
        headers: &HeaderMap<HeaderValue>,
        query: Option<&str>,
        expected: &str,
    ) -> (r: bool)
        ensures
            r == (auth::request_token(auth::header_fields(*headers), text::opt_text(query)) == Some(
                expected@,
            )),
    {
        match RpcProxy::extract_auth_token(headers, query) {
            Some(token) => text::same_text(token.as_str(), expected),
            None => false,
        }
    }

    /// Begins a request that presents a token, for a path.
    pub fn open_exchange(&self, presented: Option<String>, path: &str) -> (r: Turn)
        ensures
            r.with(self@) == exchange::admitted(self@, text::opt_string(presented), path@),
    {
        if let Some(expected) = &self.required_auth_token {
            let authorized: bool = match presented {
                Some(token) => text::same_text(token.as_str(), expected.as_str()),
                None => false,
            };
            if !authorized {
                return tell(401, "Missing or invalid auth token");
            }
        }
        match text::first_segment(path) {
            Some(segment) => Turn {
                exchange: Exchange::Reading { segment },
                action: Action::ReadBody,
                persist: false,
            },
            None => tell(400, "Missing chain ID in path. Use /<chain-id>"),
        }
    }

    /// Begins a request with the given header fields, query and path.
    pub fn handle_request(
        &self,
        headers: &HeaderMap<HeaderValue>,
        query: Option<&str>,
        path: &str,
    ) -> (r: Turn)
        ensures
            r.with(self@) == exchange::admitted(
                self@,
                auth::request_token(auth::header_fields(*headers), text::opt_text(query)),
                path@,
            ),
            // A token of plain characters that stands in the query alone is presented.
            forall|token: Seq<char>| #[trigger]
                auth::presents_in_query(
                    auth::header_fields(*headers),
                    text::opt_text(query),
                    token,
                ) ==> r.with(self@) == exchange::admitted(self@, Some(token), path@),
    {
        let presented: Option<String> = match self.required_auth_token {
            Some(_) => RpcProxy::extract_auth_token(headers, query),
            None => None,
        };
        self.open_exchange(presented, path)
    }

    /// Begins a request for a chain that is made without a client, or says why it cannot be made.
    pub fn request_json(&self, chain_id: &str, request_json: Json) -> (r: Result<Turn, String>)
        ensures
            match r {
                Ok(turn) => {
                    &&& self@.chain_named(chain_id@) is Some
                    &&& self@.endpoints(self@.chain_named(chain_id@)->0).len() > 0
                    &&& turn.with(self@) == (TurnView {
                        proxy: self@,
                        exchange: exchange::ExchangeView::Ready {
                            chain: self@.chain_named(chain_id@)->0,
                            payload: json::rendered_json(request_json.tree()),
                        },
                        action: exchange::ActionView::Proceed,
                        persist: false,
                    })
                },
                Err(message) => match self@.chain_named(chain_id@) {
                    Some(chain) => {
                        &&& self@.endpoints(chain).len() == 0
                        &&& message@ == "chain "@ + chain_id@ + " has no endpoints configured"@
                    },
                    None => message@ == "chain "@ + chain_id@ + " not supported"@,
                },
            },
            exchange::requested(self@, chain_id@, request_json.tree()) == (match r {
                Ok(turn) => Ok::<TurnView, Seq<char>>(turn.with(self@)),
                Err(message) => Err::<TurnView, Seq<char>>(message@),
            }),
    {
        let chain: usize = match self.chain_position(chain_id) {
            Some(chain) => chain,
            None => {
                return Err("chain ".to_owned().concat(chain_id).concat(" not supported"));
            },
        };
        if self.chains[chain].1.endpoints.len() == 0 {
            return Err(
                "chain ".to_owned().concat(chain_id).concat(" has no endpoints configured"),
            );
        }
        Ok(
            Turn {
                exchange: Exchange::Ready { chain, payload: request_json.render() },
                action: Action::Proceed,
                persist: false,
            },
        )
    }

    /// The answer to a request that was made without a client, or why the endpoint's response is
    /// none.
    pub fn json_reply(body: &[u8]) -> (r: Result<Json, String>)
        ensures
            match json::parsed_json(body@) {
                Ok(tree) => r matches Ok(reply) && reply.tree() == tree,
                Err(fault) => r matches Err(message) && message@ == "invalid JSON-RPC response: "@
                    + fault,
            },
    {
        match Json::parse(body) {
            Ok(reply) => Ok(reply),
            Err(fault) => Err("invalid JSON-RPC response: ".to_owned().concat(fault.as_str())),
        }
    }

    /// How much is logged.
    pub fn verbose(&self) -> (r: u8)
        ensures
            r == self@.verbose,
    {
        self.verbose
    }

    /// How long an endpoint is waited for.
    pub fn request_timeout(&self) -> (r: core::time::Duration)
        ensures
            r == self@.request_timeout,
    {
        self.request_timeout
    }
}

proof fn lemma_searched_keeps_urls(
    proxy: ProxyView,
    attempt: exchange::AttemptView,
    now: u64,
)
    requires
        attempt.valid(proxy, Await::Wake),
    ensures
        ({
            let after = exchange::searched(proxy, attempt, now);
            &&& after.chains.len() == proxy.chains.len()
            &&& after.endpoints(attempt.chain).len() == proxy.endpoints(attempt.chain).len()
            &&& forall|i: int|
                0 <= i < proxy.endpoints(attempt.chain).len() ==> (#[trigger] after.endpoints(
                    attempt.chain,
                )[i]).url == proxy.endpoints(attempt.chain)[i].url
        }),
{
}

/// What was kept is seen as it is, if anything was.
pub proof fn law_what_was_kept_is_seen_as_it_is(kept: Option<StringMap<PersistedEndpointHealth>>)
    ensures
        kept is None ==> opt_entries(kept) is None,
        kept matches Some(entries) ==> opt_entries(kept) == Some(entries@),
{
}

/// A proxy is seen as it is.
proof fn law_a_proxy_is_seen_as_it_is(p: RpcProxy, c: int)
    ensures
        p@.chains.len() == p.chains@.len(),
        0 <= c < p.chains@.len() ==> p@.chains[c] == (p.chains@[c].0@, p.chains@[c].1@),
        p@.verbose == p.verbose,
        p@.request_timeout == p.request_timeout,
        p.required_auth_token is None ==> p@.auth_token is None,
        p.required_auth_token matches Some(token) ==> p@.auth_token == Some(token@),
        p.health_store is None ==> p@.store is None,
        p.health_store matches Some(store) ==> p@.store == Some(store@),
{
}

} // verus!
