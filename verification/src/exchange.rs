//! The course of one client's request: a state, what is to be done in it, and what comes next.
//!
//! The functions here say what each step leads to; `RpcProxy` takes the steps.

use crate::chain;
use crate::chain::ChainView;
use crate::endpoint;
use crate::endpoint::EndpointView;
use crate::health::Clock;
use crate::health::HealthEntry;
use crate::json;
use crate::json::Json;
use crate::json::Tree;
use crate::lookup;
use crate::text;
use vstd::prelude::*;

verus! {

/// Milliseconds between the attempts of one pass over a chain's endpoints.
pub const ATTEMPT_PAUSE: u64 = 50;

/// Milliseconds that an endpoint's call for fewer requests adds to the pause behind it.
pub const RATE_LIMIT_PAUSE: u64 = 150;

/// Milliseconds between two passes over a chain's endpoints.
pub const PASS_PAUSE: u64 = 200;

/// What is to be done next in the course of a request.
pub enum Action {
    /// Read the body of the client's request.
    ReadBody,
    /// Go on, if the chain has any endpoints.
    Proceed,
    /// Send a JSON document to an endpoint.
    Post { url: String, payload: String },
    /// Read the body of the endpoint's response.
    ReadReply,
    /// Wait.
    Sleep { millis: u64 },
    /// Send the question of a lookup to an endpoint of every one of these targets, all at once. What
    /// comes of one of them is news of its target.
    Ask { inquiries: Vec<Inquiry> },
    /// Nothing more for this target of a lookup: others are still being asked.
    AwaitOthers,
    /// Answer the client, which ends the request.
    Reply { status: u16, body: Vec<u8> },
}

/// What is to be sent to an endpoint of one target of a lookup.
pub struct Inquiry {
    pub target: usize,
    pub url: String,
    pub payload: String,
}

/// What came of an action.
pub enum Event {
    /// The body of the client's request, or that it could not be read.
    Body(Option<Vec<u8>>),
    /// Nothing stands in the way.
    Proceed,
    /// What came of sending a document to an endpoint.
    News(News),
    /// What came of sending the question of a lookup to an endpoint of one of its targets.
    Target { target: usize, news: News },
}

/// What came of dealing with an endpoint.
pub enum News {
    /// The endpoint gave no response.
    Unreachable,
    /// The endpoint gave a response with this status.
    Answered(u16),
    /// The body of the endpoint's response, or that it could not be read.
    ReplyBody(Option<Vec<u8>>),
    /// The time to wait is over.
    Woke,
}

/// What a request waits for while it is with an endpoint.
#[derive(Clone, Copy)]
pub enum Await {
    /// The status of the endpoint's response.
    Answer,
    /// The body of the endpoint's response.
    Body,
    /// The end of a pause.
    Wake,
}

/// Where a request stands among the endpoints of a chain.
pub struct Attempt {
    /// The chain.
    pub chain: usize,
    /// What is sent to the endpoints.
    pub payload: String,
    /// The place at which the present pass over the endpoints started.
    pub start: usize,
    /// How far the pass has come: the offset of the endpoint that has the request, or, in a pause,
    /// of the one that comes next.
    pub offset: usize,
}

/// How far a lookup has come with one of its targets.
pub enum Leg {
    /// The question is on its way through the endpoints of the target.
    Asking { attempt: Attempt, awaits: Await },
    /// This is what was found.
    Settled { record: Json },
}

/// What was asked for, and how far each target has come, in a lookup.
pub struct Lookup {
    pub id: Option<Json>,
    pub address: String,
    /// The chains to look at.
    pub targets: Vec<String>,
    /// How far each of them has come.
    pub legs: Vec<Leg>,
}

/// The state of a request.
pub enum Exchange {
    /// The body is being read of a request to a path with this first segment.
    Reading { segment: String },
    /// A document is about to be sent to a chain.
    Ready { chain: usize, payload: String },
    /// A document is on its way through the endpoints of a chain.
    Forwarding { attempt: Attempt, awaits: Await },
    /// The question for code is on its way through the endpoints of many chains at once.
    Looking { lookup: Lookup },
    /// The client was answered.
    Finished,
}

/// A step of a request: the new state, what is to be done in it, and whether the health store has
/// changed and is to be kept.
pub struct Turn {
    pub exchange: Exchange,
    pub action: Action,
    pub persist: bool,
}

/// A step of a lookup with one of its targets: how far the target has come, what is to be done for it,
/// and whether the health store has changed and is to be kept.
pub struct LegTurn {
    pub leg: Leg,
    pub action: Action,
    pub persist: bool,
}

/// What is to be done, for specifications.
pub enum ActionView {
    ReadBody,
    Proceed,
    Post { url: Seq<char>, payload: Seq<char> },
    ReadReply,
    Sleep { millis: u64 },
    Ask { inquiries: Seq<InquiryView> },
    AwaitOthers,
    Reply { status: u16, body: Seq<u8> },
}

/// What is to be sent to an endpoint of one target, for specifications.
pub struct InquiryView {
    pub target: int,
    pub url: Seq<char>,
    pub payload: Seq<char>,
}

/// What came of an action, for specifications.
pub enum EventView {
    Body(Option<Seq<u8>>),
    Proceed,
    News(NewsView),
    Target { target: int, news: NewsView },
}

/// What came of dealing with an endpoint, for specifications.
pub enum NewsView {
    Unreachable,
    Answered(u16),
    ReplyBody(Option<Seq<u8>>),
    Woke,
}

/// Where a request stands among the endpoints of a chain, for specifications.
pub struct AttemptView {
    pub chain: int,
    pub payload: Seq<char>,
    pub start: int,
    pub offset: int,
}

/// How far a lookup has come with one of its targets, for specifications.
pub enum LegView {
    Asking { attempt: AttemptView, awaits: Await },
    Settled { record: Tree },
}

/// A lookup, for specifications.
pub struct LookupView {
    pub id: Option<Tree>,
    pub address: Seq<char>,
    pub targets: Seq<Seq<char>>,
    pub legs: Seq<LegView>,
}

/// The state of a request, for specifications.
pub enum ExchangeView {
    Reading { segment: Seq<char> },
    Ready { chain: int, payload: Seq<char> },
    Forwarding { attempt: AttemptView, awaits: Await },
    Looking { lookup: LookupView },
    Finished,
}

/// The state of the proxy, for specifications.
pub struct ProxyView {
    /// The chains, with their names.
    pub chains: Seq<(Seq<char>, ChainView)>,
    /// The token that clients must present, if they must.
    pub auth_token: Option<Seq<char>>,
    /// The endpoints that are kept as dead, if any are kept.
    pub store: Option<Map<Seq<char>, HealthEntry>>,
    /// How much is logged.
    pub verbose: u8,
    /// How long an endpoint is waited for.
    pub request_timeout: core::time::Duration,
}

/// A step of a request with the state of the proxy behind it, for specifications.
pub struct TurnView {
    pub proxy: ProxyView,
    pub exchange: ExchangeView,
    pub action: ActionView,
    pub persist: bool,
}

/// A step of a lookup with one of its targets, with the state of the proxy behind it, for
/// specifications.
pub struct LegTurnView {
    pub proxy: ProxyView,
    pub leg: LegView,
    pub action: ActionView,
    pub persist: bool,
}

/// The view of optional bytes.
pub open spec fn opt_bytes(bytes: Option<Vec<u8>>) -> Option<Seq<u8>> {
    match bytes {
        Some(b) => Some(b@),
        None => None,
    }
}

impl View for Inquiry {
    type V = InquiryView;

    open spec fn view(&self) -> InquiryView {
        InquiryView { target: self.target as int, url: self.url@, payload: self.payload@ }
    }
}

/// The views of a list of inquiries.
pub open spec fn inquiry_views(inquiries: Seq<Inquiry>) -> Seq<InquiryView> {
    inquiries.map_values(|i: Inquiry| i@)
}

impl View for Action {
    type V = ActionView;

    open spec fn view(&self) -> ActionView {
        match *self {
            Action::ReadBody => ActionView::ReadBody,
            Action::Proceed => ActionView::Proceed,
            Action::Post { url, payload } => ActionView::Post { url: url@, payload: payload@ },
            Action::ReadReply => ActionView::ReadReply,
            Action::Sleep { millis } => ActionView::Sleep { millis },
            Action::Ask { inquiries } => ActionView::Ask {
                inquiries: inquiry_views(inquiries@),
            },
            Action::AwaitOthers => ActionView::AwaitOthers,
            Action::Reply { status, body } => ActionView::Reply { status, body: body@ },
        }
    }
}

impl View for Event {
    type V = EventView;

    open spec fn view(&self) -> EventView {
        match *self {
            Event::Body(body) => EventView::Body(opt_bytes(body)),
            Event::Proceed => EventView::Proceed,
            Event::News(news) => EventView::News(news@),
            Event::Target { target, news } => EventView::Target {
                target: target as int,
                news: news@,
            },
        }
    }
}

impl View for News {
    type V = NewsView;

    open spec fn view(&self) -> NewsView {
        match *self {
            News::Unreachable => NewsView::Unreachable,
            News::Answered(status) => NewsView::Answered(status),
            News::ReplyBody(body) => NewsView::ReplyBody(opt_bytes(body)),
            News::Woke => NewsView::Woke,
        }
    }
}

impl View for Attempt {
    type V = AttemptView;

    open spec fn view(&self) -> AttemptView {
        AttemptView {
            chain: self.chain as int,
            payload: self.payload@,
            start: self.start as int,
            offset: self.offset as int,
        }
    }
}

impl View for Leg {
    type V = LegView;

    open spec fn view(&self) -> LegView {
        match *self {
            Leg::Asking { attempt, awaits } => LegView::Asking { attempt: attempt@, awaits },
            Leg::Settled { record } => LegView::Settled { record: record.tree() },
        }
    }
}

/// The views of a list of legs.
pub open spec fn leg_views(legs: Seq<Leg>) -> Seq<LegView> {
    legs.map_values(|l: Leg| l@)
}

impl View for Lookup {
    type V = LookupView;

    open spec fn view(&self) -> LookupView {
        LookupView {
            id: lookup::opt_json(self.id),
            address: self.address@,
            targets: text::texts(self.targets@),
            legs: leg_views(self.legs@),
        }
    }
}

impl View for Exchange {
    type V = ExchangeView;

    open spec fn view(&self) -> ExchangeView {
        match *self {
            Exchange::Reading { segment } => ExchangeView::Reading { segment: segment@ },
            Exchange::Ready { chain, payload } => ExchangeView::Ready {
                chain: chain as int,
                payload: payload@,
            },
            Exchange::Forwarding { attempt, awaits } => ExchangeView::Forwarding {
                attempt: attempt@,
                awaits,
            },
            Exchange::Looking { lookup } => ExchangeView::Looking { lookup: lookup@ },
            Exchange::Finished => ExchangeView::Finished,
        }
    }
}

/// The first chain, from a place on, that has the given name.
pub open spec fn chain_index(
    chains: Seq<(Seq<char>, ChainView)>,
    name: Seq<char>,
    from: int,
) -> Option<int>
    decreases chains.len() - from,
{
    if from >= chains.len() {
        None
    } else if chains[from].0 == name {
        Some(from)
    } else {
        chain_index(chains, name, from + 1)
    }
}

impl ProxyView {
    /// The chain that has the given name.
    pub open spec fn chain_named(self, name: Seq<char>) -> Option<int> {
        chain_index(self.chains, name, 0)
    }

    /// The names of the chains.
    pub open spec fn chain_names(self) -> Seq<Seq<char>> {
        self.chains.map_values(|c: (Seq<char>, ChainView)| c.0)
    }

    /// The endpoints of a chain.
    pub open spec fn endpoints(self, chain: int) -> Seq<EndpointView> {
        self.chains[chain].1.endpoints
    }

    /// The proxy with another state of a chain.
    pub open spec fn with_chain(self, chain: int, state: ChainView) -> ProxyView {
        ProxyView { chains: self.chains.update(chain, (self.chains[chain].0, state)), ..self }
    }

    /// The place of the endpoint that has a request.
    pub open spec fn place_of(self, attempt: AttemptView) -> int {
        chain::place(attempt.start, attempt.offset, self.endpoints(attempt.chain).len() as int)
    }

    /// The endpoint that has a request.
    pub open spec fn endpoint_of(self, attempt: AttemptView) -> EndpointView {
        self.endpoints(attempt.chain)[self.place_of(attempt)]
    }

    /// The proxy with another state of the endpoint that has a request.
    pub open spec fn with_endpoint_of(self, attempt: AttemptView, state: EndpointView) -> ProxyView {
        self.with_chain(
            attempt.chain,
            self.chains[attempt.chain].1.with_endpoint(self.place_of(attempt), state),
        )
    }

    /// The proxy after a hard failure of the endpoint that has a request.
    pub open spec fn after_failure(self, attempt: AttemptView, clock: Clock) -> ProxyView {
        let failed = self.endpoint_of(attempt);
        ProxyView {
            store: endpoint::store_after_failure(self.store, failed, clock.unix),
            ..self.with_endpoint_of(attempt, failed.failed(clock.instant))
        }
    }

    /// Whether a hard failure of the endpoint that has a request changes the store.
    pub open spec fn failure_persists(self, attempt: AttemptView) -> bool {
        self.endpoint_of(attempt).dies_next() && self.store is Some
    }

    /// The proxy after the endpoint that has a request asked for fewer.
    pub open spec fn after_rate_limit(self, attempt: AttemptView, clock: Clock) -> ProxyView {
        self.with_endpoint_of(
            attempt,
            self.endpoint_of(attempt).resting(clock.instant, crate::health::RATE_LIMIT_COOLDOWN),
        )
    }

    /// The proxy after a success of the endpoint that has a request.
    pub open spec fn after_success(self, attempt: AttemptView) -> ProxyView {
        let succeeded = self.endpoint_of(attempt);
        ProxyView {
            store: endpoint::store_after_success(self.store, succeeded),
            ..self.with_endpoint_of(attempt, succeeded.cleared())
        }
    }

    /// Whether a success of the endpoint that has a request changes the store.
    pub open spec fn success_persists(self, attempt: AttemptView) -> bool {
        self.store matches Some(entries) && entries.contains_key(self.endpoint_of(attempt).key())
    }
}

impl AttemptView {
    /// The attempt moved on to the endpoint behind.
    pub open spec fn moved_on(self) -> AttemptView {
        AttemptView { offset: self.offset + 1, ..self }
    }

    /// Whether the attempt stands among the endpoints of a chain of the proxy, or, in a pause, just
    /// behind the last of them.
    pub open spec fn valid(self, proxy: ProxyView, awaits: Await) -> bool {
        &&& 0 <= self.chain < proxy.chains.len()
        &&& 0 <= self.start < proxy.endpoints(self.chain).len()
        &&& 0 <= self.offset <= proxy.endpoints(self.chain).len()
        &&& awaits is Wake || self.offset < proxy.endpoints(self.chain).len()
    }
}

/// What was found on the targets of a lookup that are settled, by their names. Where a name comes
/// twice, the later target counts.
pub open spec fn records_of(targets: Seq<Seq<char>>, legs: Seq<LegView>) -> Map<Seq<char>, Tree>
    decreases legs.len(),
{
    if legs.len() == 0 {
        Map::empty()
    } else {
        let before = records_of(targets, legs.drop_last());
        match legs.last() {
            LegView::Asking { .. } => before,
            LegView::Settled { record } => before.insert(targets[legs.len() - 1], record),
        }
    }
}

impl LookupView {
    /// The lookup with another state of one of its targets.
    pub open spec fn with_leg(self, target: int, leg: LegView) -> LookupView {
        LookupView { legs: self.legs.update(target, leg), ..self }
    }

    /// Whether every target is settled.
    pub open spec fn settled(self) -> bool {
        forall|i: int| 0 <= i < self.legs.len() ==> (#[trigger] self.legs[i]) is Settled
    }

    /// The reply once every target is settled.
    pub open spec fn reply(self) -> Seq<u8> {
        vstd::utf8::encode_utf8(
            json::rendered_json(
                lookup::lookup_reply(self.id, self.address, records_of(self.targets, self.legs)),
            ),
        )
    }
}

/// A step that ends a request with an answer to the client.
pub open spec fn answered(proxy: ProxyView, status: u16, body: Seq<u8>, persist: bool) -> TurnView {
    TurnView {
        proxy,
        exchange: ExchangeView::Finished,
        action: ActionView::Reply { status, body },
        persist,
    }
}

/// A step that ends a request with a line of text.
pub open spec fn told(proxy: ProxyView, status: u16, message: Seq<char>) -> TurnView {
    answered(proxy, status, vstd::utf8::encode_utf8(message), false)
}

/// The action of sending a request to the endpoint it has come to.
pub open spec fn post(proxy: ProxyView, attempt: AttemptView) -> ActionView {
    ActionView::Post { url: proxy.endpoint_of(attempt).url, payload: attempt.payload }
}

/// The offset at which a request finds its next healthy endpoint in the present pass.
pub open spec fn next_offset(proxy: ProxyView, attempt: AttemptView, now: u64) -> Option<int> {
    chain::next_healthy(proxy.endpoints(attempt.chain), attempt.start, attempt.offset, now)
}

/// The proxy once a request has looked for its next healthy endpoint.
pub open spec fn searched(proxy: ProxyView, attempt: AttemptView, now: u64) -> ProxyView {
    proxy.with_chain(
        attempt.chain,
        proxy.chains[attempt.chain].1.searched(attempt.start, attempt.offset, now),
    )
}

/// A document goes to the next healthy endpoint of the pass. Where there is none, the next pass
/// starts one place further on, after a pause.
pub open spec fn sought(proxy: ProxyView, attempt: AttemptView, now: u64) -> TurnView {
    match next_offset(proxy, attempt, now) {
        Some(k) => {
            let found = AttemptView { offset: k, ..attempt };
            TurnView {
                proxy: searched(proxy, attempt, now),
                exchange: ExchangeView::Forwarding { attempt: found, awaits: Await::Answer },
                action: post(proxy, found),
                persist: false,
            }
        },
        None => TurnView {
            proxy,
            exchange: ExchangeView::Forwarding {
                attempt: AttemptView {
                    start: chain::place(
                        attempt.start,
                        1,
                        proxy.endpoints(attempt.chain).len() as int,
                    ),
                    offset: 0,
                    ..attempt
                },
                awaits: Await::Wake,
            },
            action: ActionView::Sleep { millis: PASS_PAUSE },
            persist: false,
        },
    }
}

/// A document sets out for a chain: it starts at the endpoint whose turn it is.
pub open spec fn begun(proxy: ProxyView, chain: int, payload: Seq<char>, now: u64) -> TurnView {
    let state = proxy.chains[chain].1;
    sought(
        proxy.with_chain(chain, state.counted()),
        AttemptView { chain, payload, start: state.first_place(), offset: 0 },
        now,
    )
}

/// A document pauses before it goes on to the next endpoint.
pub open spec fn forward_paused(
    proxy: ProxyView,
    attempt: AttemptView,
    millis: u64,
    persist: bool,
) -> TurnView {
    TurnView {
        proxy,
        exchange: ExchangeView::Forwarding { attempt: attempt.moved_on(), awaits: Await::Wake },
        action: ActionView::Sleep { millis },
        persist,
    }
}

/// Whether a status says that the request was met.
pub open spec fn success(status: u16) -> bool {
    200 <= status < 300
}

/// What becomes of a document when something comes of sending it to an endpoint.
pub open spec fn forwarded(
    proxy: ProxyView,
    attempt: AttemptView,
    news: NewsView,
    clock: Clock,
) -> TurnView {
    match news {
        NewsView::Answered(status) => if success(status) {
            TurnView {
                proxy,
                exchange: ExchangeView::Forwarding { attempt, awaits: Await::Body },
                action: ActionView::ReadReply,
                persist: false,
            }
        } else if status == 429 {
            forward_paused(
                proxy.after_rate_limit(attempt, clock),
                attempt,
                (RATE_LIMIT_PAUSE + ATTEMPT_PAUSE) as u64,
                false,
            )
        } else {
            forward_paused(
                proxy.after_failure(attempt, clock),
                attempt,
                ATTEMPT_PAUSE,
                proxy.failure_persists(attempt),
            )
        },
        NewsView::ReplyBody(Some(body)) => answered(
            proxy.after_success(attempt),
            200,
            body,
            proxy.success_persists(attempt),
        ),
        NewsView::ReplyBody(None) => TurnView {
            persist: proxy.failure_persists(attempt),
            ..sought(proxy.after_failure(attempt, clock), attempt.moved_on(), clock.instant)
        },
        NewsView::Woke => sought(proxy, attempt, clock.instant),
        _ => forward_paused(
            proxy.after_failure(attempt, clock),
            attempt,
            ATTEMPT_PAUSE,
            proxy.failure_persists(attempt),
        ),
    }
}

/// A target that has failed, for a reason.
pub open spec fn target_failed(proxy: ProxyView, reason: Seq<char>) -> LegTurnView {
    LegTurnView {
        proxy,
        leg: LegView::Settled { record: lookup::failure_record(reason) },
        action: ActionView::AwaitOthers,
        persist: false,
    }
}

/// The question for code goes to the next healthy endpoint of a target. Where there is none, the
/// target has failed.
pub open spec fn looked_at(proxy: ProxyView, attempt: AttemptView, now: u64) -> LegTurnView {
    match next_offset(proxy, attempt, now) {
        Some(k) => {
            let found = AttemptView { offset: k, ..attempt };
            LegTurnView {
                proxy: searched(proxy, attempt, now),
                leg: LegView::Asking { attempt: found, awaits: Await::Answer },
                action: post(proxy, found),
                persist: false,
            }
        },
        None => target_failed(proxy, "all endpoints failed"@),
    }
}

/// The question for code sets out for a target: it starts at the endpoint whose turn it is.
pub open spec fn asked(
    proxy: ProxyView,
    target: Seq<char>,
    address: Seq<char>,
    now: u64,
) -> LegTurnView {
    match proxy.chain_named(target) {
        Some(chain) => if proxy.endpoints(chain).len() == 0 {
            target_failed(proxy, "no endpoints configured"@)
        } else {
            let state = proxy.chains[chain].1;
            looked_at(
                proxy.with_chain(chain, state.counted()),
                AttemptView {
                    chain,
                    payload: json::rendered_json(lookup::code_question(address)),
                    start: state.first_place(),
                    offset: 0,
                },
                now,
            )
        },
        None => target_failed(proxy, "chain not configured"@),
    }
}

/// The targets of a lookup once the question has set out for each of them.
pub struct AskedView {
    pub proxy: ProxyView,
    pub legs: Seq<LegView>,
    pub inquiries: Seq<InquiryView>,
}

/// The question for code sets out for every target at once.
pub open spec fn all_asked(
    proxy: ProxyView,
    targets: Seq<Seq<char>>,
    address: Seq<char>,
    now: u64,
) -> AskedView
    decreases targets.len(),
{
    if targets.len() == 0 {
        AskedView { proxy, legs: Seq::empty(), inquiries: Seq::empty() }
    } else {
        let before = all_asked(proxy, targets.drop_last(), address, now);
        let last = asked(before.proxy, targets.last(), address, now);
        AskedView {
            proxy: last.proxy,
            legs: before.legs.push(last.leg),
            inquiries: match last.action {
                ActionView::Post { url, payload } => before.inquiries.push(
                    InquiryView { target: targets.len() - 1, url, payload },
                ),
                _ => before.inquiries,
            },
        }
    }
}

/// The question pauses before it goes on to the next endpoint of a target.
pub open spec fn lookup_paused(
    proxy: ProxyView,
    attempt: AttemptView,
    persist: bool,
) -> LegTurnView {
    LegTurnView {
        proxy,
        leg: LegView::Asking { attempt: attempt.moved_on(), awaits: Await::Wake },
        action: ActionView::Sleep { millis: ATTEMPT_PAUSE },
        persist,
    }
}

/// The question goes on at once with the next endpoint of a target after a hard failure.
pub open spec fn lookup_failed(
    proxy: ProxyView,
    attempt: AttemptView,
    clock: Clock,
) -> LegTurnView {
    LegTurnView {
        persist: proxy.failure_persists(attempt),
        ..looked_at(proxy.after_failure(attempt, clock), attempt.moved_on(), clock.instant)
    }
}

/// What becomes of a target when something comes of putting the question to one of its endpoints. The
/// other targets have no part in it.
pub open spec fn target_looked(
    proxy: ProxyView,
    attempt: AttemptView,
    news: NewsView,
    clock: Clock,
) -> LegTurnView {
    match news {
        NewsView::Answered(status) => if success(status) {
            LegTurnView {
                proxy,
                leg: LegView::Asking { attempt, awaits: Await::Body },
                action: ActionView::ReadReply,
                persist: false,
            }
        } else if status == 429 {
            lookup_paused(proxy.after_rate_limit(attempt, clock), attempt, false)
        } else {
            lookup_paused(
                proxy.after_failure(attempt, clock),
                attempt,
                proxy.failure_persists(attempt),
            )
        },
        NewsView::ReplyBody(Some(body)) => match lookup::code_answer(body) {
            lookup::CodeAnswerView::Code(code) => LegTurnView {
                proxy: proxy.after_success(attempt),
                leg: LegView::Settled { record: lookup::code_record(code) },
                action: ActionView::AwaitOthers,
                persist: proxy.success_persists(attempt),
            },
            lookup::CodeAnswerView::Refused(message) => target_failed(proxy, message),
            lookup::CodeAnswerView::Unusable => lookup_failed(proxy, attempt, clock),
        },
        NewsView::ReplyBody(None) => lookup_failed(proxy, attempt, clock),
        NewsView::Woke => looked_at(proxy, attempt, clock.instant),
        NewsView::Unreachable => lookup_paused(
            proxy.after_failure(attempt, clock),
            attempt,
            proxy.failure_persists(attempt),
        ),
    }
}

/// A lookup after a step with one of its targets: the client is answered once every target is settled.
pub open spec fn gone_on(lookup: LookupView, target: int, step: LegTurnView) -> TurnView {
    let next = lookup.with_leg(target, step.leg);
    if next.settled() {
        answered(step.proxy, 200, next.reply(), step.persist)
    } else {
        TurnView {
            proxy: step.proxy,
            exchange: ExchangeView::Looking { lookup: next },
            action: step.action,
            persist: step.persist,
        }
    }
}

/// What becomes of a lookup when there is news of one of its targets.
pub open spec fn looked(
    proxy: ProxyView,
    lookup: LookupView,
    target: int,
    news: NewsView,
    clock: Clock,
) -> TurnView {
    match lookup.legs[target] {
        LegView::Asking { attempt, .. } => gone_on(
            lookup,
            target,
            target_looked(proxy, attempt, news, clock),
        ),
        LegView::Settled { .. } => TurnView {
            proxy,
            exchange: ExchangeView::Looking { lookup },
            action: ActionView::AwaitOthers,
            persist: false,
        },
    }
}

/// The targets of a lookup: the chains that the request names, or all there are.
pub open spec fn targets_of(proxy: ProxyView, wanted: Option<Seq<Seq<char>>>) -> Seq<Seq<char>> {
    match wanted {
        Some(list) => if list.len() > 0 {
            list
        } else {
            proxy.chain_names()
        },
        None => proxy.chain_names(),
    }
}

/// What becomes of a request to look an address up, once it is read as a JSON document.
pub open spec fn lookup_begun(proxy: ProxyView, request: Tree, now: u64) -> TurnView {
    match lookup::contract_params(request) {
        Ok(params) => {
            let targets = targets_of(proxy, params.1);
            let all = all_asked(proxy, targets, params.0, now);
            let begun = LookupView {
                id: request.member("id"@),
                address: params.0,
                targets,
                legs: all.legs,
            };
            if begun.settled() {
                answered(all.proxy, 200, begun.reply(), false)
            } else {
                TurnView {
                    proxy: all.proxy,
                    exchange: ExchangeView::Looking { lookup: begun },
                    action: ActionView::Ask { inquiries: all.inquiries },
                    persist: false,
                }
            }
        },
        Err(message) => answered(
            proxy,
            400,
            vstd::utf8::encode_utf8(
                json::rendered_json(lookup::refusal_reply(request.member("id"@), message)),
            ),
            false,
        ),
    }
}

/// What becomes of a request when its body has been read. Nothing but a chain's name stands between
/// a JSON document and that chain's endpoints.
pub open spec fn received(
    proxy: ProxyView,
    segment: Seq<char>,
    body: Option<Seq<u8>>,
    now: u64,
) -> TurnView {
    match body {
        None => told(proxy, 400, "Invalid request body"@),
        Some(bytes) => if segment != "sr_contract_chains"@ && proxy.chain_named(segment) is None {
            told(proxy, 404, "Chain not supported"@)
        } else if bytes.len() == 0 {
            told(proxy, 400, "Request body cannot be empty"@)
        } else {
            match json::parsed_json(bytes) {
                Err(_) => told(proxy, 400, "Invalid JSON in request body"@),
                Ok(request) => if segment == "sr_contract_chains"@ {
                    lookup_begun(proxy, request, now)
                } else {
                    TurnView {
                        proxy,
                        exchange: ExchangeView::Ready {
                            chain: proxy.chain_named(segment)->0,
                            payload: json::rendered_json(request),
                        },
                        action: ActionView::Proceed,
                        persist: false,
                    }
                },
            }
        },
    }
}

/// What becomes of a document for a chain that comes without a client, or what is missing.
pub open spec fn requested(proxy: ProxyView, name: Seq<char>, document: Tree) -> Result<
    TurnView,
    Seq<char>,
> {
    match proxy.chain_named(name) {
        Some(chain) => if proxy.endpoints(chain).len() > 0 {
            Ok(
                TurnView {
                    proxy,
                    exchange: ExchangeView::Ready {
                        chain,
                        payload: json::rendered_json(document),
                    },
                    action: ActionView::Proceed,
                    persist: false,
                },
            )
        } else {
            Err("chain "@ + name + " has no endpoints configured"@)
        },
        None => Err("chain "@ + name + " not supported"@),
    }
}

/// What becomes of a request that presents a token, for a path. The token comes first.
pub open spec fn admitted(
    proxy: ProxyView,
    presented: Option<Seq<char>>,
    path: Seq<char>,
) -> TurnView {
    if proxy.auth_token is Some && presented != proxy.auth_token {
        told(proxy, 401, "Missing or invalid auth token"@)
    } else {
        match text::first_segment_of(path) {
            Some(segment) => TurnView {
                proxy,
                exchange: ExchangeView::Reading { segment },
                action: ActionView::ReadBody,
                persist: false,
            },
            None => told(proxy, 400, "Missing chain ID in path. Use /<chain-id>"@),
        }
    }
}

impl LegView {
    /// Whether the target, where it is not settled, stands where the proxy has endpoints.
    pub open spec fn valid(self, proxy: ProxyView) -> bool {
        match self {
            LegView::Asking { attempt, awaits } => attempt.valid(proxy, awaits),
            LegView::Settled { .. } => true,
        }
    }
}

impl ExchangeView {
    /// Whether the request stands where the proxy has chains and endpoints.
    pub open spec fn valid(self, proxy: ProxyView) -> bool {
        match self {
            ExchangeView::Ready { chain, .. } => 0 <= chain < proxy.chains.len(),
            ExchangeView::Forwarding { attempt, awaits } => attempt.valid(proxy, awaits),
            ExchangeView::Looking { lookup } => {
                &&& lookup.legs.len() == lookup.targets.len()
                &&& forall|i: int|
                    0 <= i < lookup.legs.len() ==> (#[trigger] lookup.legs[i]).valid(proxy)
            },
            _ => true,
        }
    }

    /// What an event is about: where the request stands with the endpoint that the event tells of.
    pub open spec fn concerned(self, event: EventView) -> Option<(AttemptView, Await)> {
        match (self, event) {
            (ExchangeView::Forwarding { attempt, awaits }, EventView::News(_)) => Some(
                (attempt, awaits),
            ),
            (
                ExchangeView::Looking { lookup },
                EventView::Target { target, .. },
            ) => if 0 <= target < lookup.legs.len() {
                match lookup.legs[target] {
                    LegView::Asking { attempt, awaits } => Some((attempt, awaits)),
                    LegView::Settled { .. } => None,
                }
            } else {
                None
            },
            _ => None,
        }
    }

    /// Whether an event is one that the request waits for.
    pub open spec fn expects(self, event: EventView) -> bool {
        match self {
            ExchangeView::Reading { .. } => event is Body,
            ExchangeView::Ready { .. } => event is Proceed,
            ExchangeView::Finished => false,
            _ => match self.concerned(event) {
                Some(stand) => awaited(stand.1, news_in(event)),
                None => false,
            },
        }
    }

    /// Whether the step that an event leads to can be taken: a document that is about to go to a
    /// chain finds endpoints there, and the failures of an endpoint can still be counted.
    pub open spec fn can_go_on(self, proxy: ProxyView, event: EventView) -> bool {
        match self {
            ExchangeView::Ready { chain, .. } => proxy.endpoints(chain).len() > 0,
            _ => match self.concerned(event) {
                Some(stand) => countable(proxy, stand.0, stand.1),
                None => true,
            },
        }
    }
}

/// The news of an endpoint in an event that brings any.
pub open spec fn news_in(event: EventView) -> NewsView {
    match event {
        EventView::News(news) => news,
        EventView::Target { news, .. } => news,
        _ => NewsView::Woke,
    }
}

/// Whether news are what is waited for while a request is with an endpoint.
pub open spec fn awaited(awaits: Await, news: NewsView) -> bool {
    match awaits {
        Await::Answer => news is Unreachable || news is Answered,
        Await::Body => news is ReplyBody,
        Await::Wake => news is Woke,
    }
}

/// Whether one more failure of the endpoint that has a request can be counted.
pub open spec fn countable(proxy: ProxyView, attempt: AttemptView, awaits: Await) -> bool {
    awaits is Wake || proxy.endpoint_of(attempt).failures < u32::MAX
}

/// Whether a step can be taken.
pub open spec fn ready(
    proxy: ProxyView,
    exchange: ExchangeView,
    event: EventView,
    clock: Clock,
) -> bool {
    &&& exchange.valid(proxy)
    &&& exchange.expects(event)
    &&& exchange.can_go_on(proxy, event)
    &&& clock.has_room()
}

/// The step that an event leads to.
pub open spec fn advanced(
    proxy: ProxyView,
    exchange: ExchangeView,
    event: EventView,
    clock: Clock,
) -> TurnView {
    match (exchange, event) {
        (ExchangeView::Reading { segment }, EventView::Body(body)) => received(
            proxy,
            segment,
            body,
            clock.instant,
        ),
        (ExchangeView::Ready { chain, payload }, _) => begun(proxy, chain, payload, clock.instant),
        (ExchangeView::Forwarding { attempt, .. }, EventView::News(news)) => forwarded(
            proxy,
            attempt,
            news,
            clock,
        ),
        (ExchangeView::Looking { lookup }, EventView::Target { target, news }) => looked(
            proxy,
            lookup,
            target,
            news,
            clock,
        ),
        _ => TurnView { proxy, exchange, action: ActionView::ReadBody, persist: false },
    }
}

} // verus!
