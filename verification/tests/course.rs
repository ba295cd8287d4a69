use hyper::http::header::HeaderValue;
use hyper::http::HeaderMap;
use singlerpc::exchange::Action;
use singlerpc::exchange::Event;
use singlerpc::exchange::Exchange;
use singlerpc::exchange::Inquiry;
use singlerpc::exchange::News;
use singlerpc::exchange::Turn;
use singlerpc::health::endpoint_key;
use singlerpc::health::Clock;
use singlerpc::health::PersistedEndpointHealth;
use singlerpc::json::Json;
use singlerpc::string_map::StringMap;
use singlerpc::ChainsConfig;
use singlerpc::RpcProxy;
use std::collections::HashMap;
use std::time::Duration;

const NANOS: u64 = 1_000_000_000;
const MILLIS: u64 = 1_000_000;

/// How an endpoint takes a request.
#[derive(Clone)]
enum Upstream {
    Silent,
    Status(u16),
    Broken,
    Says(&'static str),
}

/// A proxy with endpoints around it that answer as they are told, and a clock that only waiting moves.
struct World {
    proxy: RpcProxy,
    upstreams: HashMap<String, Upstream>,
    clock: Clock,
    posts: Vec<(String, String)>,
    sleeps: Vec<u64>,
    persisted: usize,
    /// Whether the news of a lookup come from the last target first.
    backwards: bool,
}

fn config(chains: &[(&str, &[&str])]) -> ChainsConfig {
    let mut config = ChainsConfig::new();
    for (name, urls) in chains {
        config.insert(name.to_string(), urls.iter().map(|u| u.to_string()).collect());
    }
    config
}

fn world(chains: &[(&str, &[&str])], upstreams: &[(&str, Upstream)], keep: bool) -> World {
    let clock = Clock { instant: 1_000, unix: 1_700_000_000 };
    let kept = if keep { Some(StringMap::new()) } else { None };
    World {
        proxy: RpcProxy::with_health_store(
            &config(chains),
            0,
            Duration::from_secs(2),
            None,
            kept,
            clock,
        ),
        upstreams: upstreams.iter().map(|(u, a)| (u.to_string(), a.clone())).collect(),
        clock,
        posts: Vec::new(),
        sleeps: Vec::new(),
        persisted: 0,
        backwards: false,
    }
}

impl World {
    /// Does what is to be done with an endpoint.
    fn perform(&mut self, action: Action, at: &mut String) -> News {
        match action {
            Action::Post { url, payload } => {
                self.posts.push((url.clone(), payload));
                *at = url;
                match &self.upstreams[at] {
                    Upstream::Silent => News::Unreachable,
                    Upstream::Status(status) => News::Answered(*status),
                    Upstream::Broken => News::Answered(200),
                    Upstream::Says(_) => News::Answered(200),
                }
            }
            Action::ReadReply => match &self.upstreams[at] {
                Upstream::Says(text) => News::ReplyBody(Some(text.as_bytes().to_vec())),
                _ => News::ReplyBody(None),
            },
            Action::Sleep { millis } => {
                self.sleeps.push(millis);
                self.clock.instant += millis * MILLIS;
                News::Woke
            }
            _ => panic!("not for an endpoint"),
        }
    }

    fn step(&mut self, exchange: Exchange, event: Event) -> Turn {
        assert!(self.proxy.accepts(&exchange, &event, self.clock));
        let turn = self.proxy.advance(exchange, event, self.clock);
        if turn.persist {
            self.persisted += 1;
        }
        turn
    }

    /// Takes a request to its end, or to the given number of steps.
    fn run(&mut self, first: Turn, body: Option<&[u8]>, steps: usize) -> Option<(u16, String)> {
        let mut turn = first;
        let mut at = String::new();
        for _ in 0..steps {
            let event = match turn.action {
                Action::ReadBody => Event::Body(body.map(|b| b.to_vec())),
                Action::Proceed => Event::Proceed,
                Action::Ask { inquiries } => {
                    return Some(self.look_up(turn.exchange, inquiries));
                }
                Action::Reply { status, body } => {
                    assert!(matches!(turn.exchange, Exchange::Finished));
                    return Some((status, String::from_utf8(body).unwrap()));
                }
                action => Event::News(self.perform(action, &mut at)),
            };
            turn = self.step(turn.exchange, event);
        }
        None
    }

    /// Takes a lookup to its end: every target is sent its question before any news come.
    fn look_up(&mut self, exchange: Exchange, inquiries: Vec<Inquiry>) -> (u16, String) {
        let mut exchange = exchange;
        let mut at: HashMap<usize, String> = HashMap::new();
        let mut arrived: Vec<(usize, News)> = Vec::new();
        for Inquiry { target, url, payload } in inquiries {
            let place = at.entry(target).or_default();
            let news = self.perform(Action::Post { url, payload }, place);
            arrived.push((target, news));
        }
        loop {
            let next = if self.backwards { arrived.len() - 1 } else { 0 };
            let (target, news) = arrived.remove(next);
            let turn = self.step(exchange, Event::Target { target, news });
            match turn.action {
                Action::Reply { status, body } => {
                    assert!(arrived.is_empty());
                    return (status, String::from_utf8(body).unwrap());
                }
                Action::AwaitOthers => {}
                action => {
                    let place = at.entry(target).or_default();
                    let news = self.perform(action, place);
                    arrived.push((target, news));
                }
            }
            exchange = turn.exchange;
        }
    }

    fn request(&mut self, path: &str, body: &str) -> Option<(u16, String)> {
        let turn = self.proxy.handle_request(&HeaderMap::new(), None, path);
        self.run(turn, Some(body.as_bytes()), 1_000)
    }

    fn request_json(&mut self, chain: &str, request: &str) -> Result<String, String> {
        let request = Json::parse(request.as_bytes())?;
        let turn = self.proxy.request_json(chain, request)?;
        let (_, body) = self.run(turn, None, 1_000).unwrap();
        RpcProxy::json_reply(body.as_bytes()).map(|json| json.render())
    }

    fn hits(&self, url: &str) -> usize {
        self.posts.iter().filter(|(u, _)| u == url).count()
    }

    fn urls(&self) -> Vec<&str> {
        self.posts.iter().map(|(u, _)| u.as_str()).collect()
    }

    fn store_len(&self) -> usize {
        self.proxy.health_entries().unwrap().len()
    }
}

#[test]
fn json_rpc_error_is_returned_without_rotating() {
    let mut w = world(
        &[("1", &["first", "second"])],
        &[
            (
                "first",
                Upstream::Says(
                    r#"{"jsonrpc":"2.0","id":1,"error":{"code":-32000,"message":"invalid opcode"}}"#,
                ),
            ),
            ("second", Upstream::Says(r#"{"jsonrpc":"2.0","id":1,"result":"0x1"}"#)),
        ],
        false,
    );
    let request = r#"{"jsonrpc":"2.0","id":1,"method":"eth_estimateGas","params":[]}"#;
    let response = w.request_json("1", request).unwrap();
    let response = Json::parse(response.as_bytes()).ok().unwrap();
    assert_eq!(
        response
            .get("error")
            .and_then(|error| error.get("message"))
            .and_then(|message| message.as_str()),
        Some("invalid opcode")
    );
    assert_eq!(w.hits("first"), 1);
    assert_eq!(w.hits("second"), 0);
}

#[test]
fn rate_limited_endpoint_rotates_without_persisting_dead_state() {
    let mut w = world(
        &[("1", &["first", "second"])],
        &[
            ("first", Upstream::Status(429)),
            ("second", Upstream::Says(r#"{"jsonrpc":"2.0","id":1,"result":"0x123"}"#)),
        ],
        true,
    );
    let request = r#"{"jsonrpc":"2.0","id":1,"method":"eth_blockNumber","params":[]}"#;
    let response = w.request_json("1", request).unwrap();
    let response = Json::parse(response.as_bytes()).ok().unwrap();
    assert_eq!(response.get("result").and_then(|r| r.as_str()), Some("0x123"));
    assert_eq!(w.hits("first"), 1);
    assert_eq!(w.hits("second"), 1);
    assert_eq!(w.store_len(), 0);
    assert_eq!(w.persisted, 0);
    assert_eq!(w.sleeps, vec![200]);
}

#[test]
fn hard_dead_endpoint_is_persisted_and_restored() {
    let mut w = world(
        &[("1", &["http://dead.local"])],
        &[("http://dead.local", Upstream::Silent)],
        true,
    );
    let request = Json::Null;
    let turn = w.proxy.request_json("1", request).unwrap();
    // Two attempts and the pauses behind them leave the endpoint healthy.
    assert!(w.run(turn, None, 6).is_none());
    assert_eq!(w.hits("http://dead.local"), 2);
    assert_eq!(w.store_len(), 0);
    let turn = w.proxy.request_json("1", Json::Null).unwrap();
    assert!(w.run(turn, None, 3).is_none());
    assert_eq!(w.hits("http://dead.local"), 3);
    assert_eq!(w.persisted, 1);
    let turn = w.proxy.request_json("1", Json::Null).unwrap();
    assert!(w.run(turn, None, 20).is_none());
    assert_eq!(w.hits("http://dead.local"), 3);

    let persisted = w.proxy.health_entries().unwrap();
    assert_eq!(persisted.len(), 1);

    let (key, entry) = persisted.entry(0);
    let mut kept = StringMap::new();
    kept.insert(
        key.to_string(),
        PersistedEndpointHealth {
            chain_id: entry.chain_id.clone(),
            url: entry.url.clone(),
            reason: entry.reason.clone(),
            unavailable_until: entry.unavailable_until,
        },
    );
    w.clock = Clock { instant: 0, unix: w.clock.unix + 600 };
    w.proxy = RpcProxy::with_health_store(
        &config(&[("1", &["http://dead.local"])]),
        0,
        Duration::from_secs(2),
        None,
        Some(kept),
        w.clock,
    );
    assert_eq!(w.store_len(), 1);
    let turn = w.proxy.request_json("1", Json::Null).unwrap();
    assert!(w.run(turn, None, 20).is_none());
    assert_eq!(w.hits("http://dead.local"), 3);
    // Ten minutes of the three hours were over at the start.
    w.clock.instant = (3 * 3_600 - 600) * NANOS;
    let turn = w.proxy.request_json("1", Json::Null).unwrap();
    assert!(w.run(turn, None, 3).is_none());
    assert_eq!(w.hits("http://dead.local"), 4);
}

#[test]
fn the_token_is_asked_for_first() {
    let proxy = RpcProxy::with_timeout(
        &config(&[("1", &["a"])]),
        0,
        Duration::from_secs(2),
        Some("secret".to_string()),
    );
    let mut headers = HeaderMap::new();
    for path in ["/", "/1", "/nowhere", "/sr_contract_chains"] {
        let turn = proxy.handle_request(&headers, None, path);
        match turn.action {
            Action::Reply { status, body } => {
                assert_eq!(status, 401);
                assert_eq!(body, b"Missing or invalid auth token".to_vec());
            }
            _ => panic!("not refused"),
        }
    }
    assert!(matches!(
        proxy.handle_request(&headers, Some("auth=secret"), "/1").action,
        Action::ReadBody
    ));
    headers.insert("x-singlerpc-auth", HeaderValue::from_static("secret"));
    assert!(matches!(proxy.handle_request(&headers, None, "/1").action, Action::ReadBody));
    assert!(matches!(
        proxy.open_exchange(Some("other".to_string()), "/1").action,
        Action::Reply { status: 401, .. }
    ));
}

#[test]
fn requests_that_cannot_be_served_are_refused() {
    let mut w = world(&[("1", &["a"])], &[("a", Upstream::Says("{}"))], false);
    let told = |status: u16, message: &str| Some((status, message.to_string()));
    assert_eq!(w.request("/", "{}"), told(400, "Missing chain ID in path. Use /<chain-id>"));
    assert_eq!(w.request("/2", ""), told(404, "Chain not supported"));
    assert_eq!(w.request("/1", ""), told(400, "Request body cannot be empty"));
    assert_eq!(w.request("/1", "{"), told(400, "Invalid JSON in request body"));
    let lookup = "/sr_contract_chains";
    assert_eq!(w.request(lookup, ""), told(400, "Request body cannot be empty"));
    assert_eq!(w.request(lookup, "{"), told(400, "Invalid JSON in request body"));
    assert_eq!(
        w.request(lookup, "{\"id\":3}"),
        told(
            400,
            "{\"error\":{\"code\":-32602,\"message\":\"address is required\"},\"id\":3,\
             \"jsonrpc\":\"2.0\"}"
        )
    );
    let turn = w.proxy.handle_request(&HeaderMap::new(), None, "/2");
    assert_eq!(w.run(turn, None, 10), told(400, "Invalid request body"));
    assert!(w.posts.is_empty());
    assert_eq!(w.request("/1", "{}"), told(200, "{}"));
}

#[test]
fn a_request_made_without_a_client_can_fail() {
    let mut w = world(
        &[("1", &["a"]), ("2", &[])],
        &[("a", Upstream::Says("nonsense"))],
        false,
    );
    assert_eq!(w.request_json("3", "{}"), Err("chain 3 not supported".to_string()));
    assert_eq!(
        w.request_json("2", "{}"),
        Err("chain 2 has no endpoints configured".to_string())
    );
    assert_eq!(
        w.request_json("1", "{}"),
        Err("invalid JSON-RPC response: expected ident at line 1 column 2".to_string())
    );
}

#[test]
fn requests_take_turns_among_the_endpoints() {
    let says = Upstream::Says("{}");
    let mut w = world(
        &[("1", &["a", "b", "c"])],
        &[("a", says.clone()), ("b", says.clone()), ("c", says)],
        false,
    );
    for _ in 0..4 {
        assert_eq!(w.request("/1/ignored", " { \"x\" : 1 } "), Some((200, "{}".to_string())));
    }
    assert_eq!(w.urls(), vec!["a", "b", "c", "a"]);
    assert!(w.posts.iter().all(|(_, payload)| payload == "{\"x\":1}"));
    assert!(w.sleeps.is_empty());
    assert_eq!(w.proxy.get_chain_state("1").unwrap().current_index, 4);
    assert!(w.proxy.get_chain_state("2").is_none());
}

#[test]
fn a_document_is_tried_until_an_endpoint_meets_it() {
    let mut w = world(
        &[("1", &["a", "b", "c", "d"])],
        &[
            ("a", Upstream::Silent),
            ("b", Upstream::Status(500)),
            ("c", Upstream::Broken),
            ("d", Upstream::Status(404)),
        ],
        true,
    );
    let turn = w.proxy.handle_request(&HeaderMap::new(), None, "/1");
    assert!(w.run(turn, Some(b"{}"), 400).is_none());
    // Three passes, each one place further on, kill all four; nothing but passes follows.
    assert_eq!(
        w.urls(),
        vec!["a", "b", "c", "d", "b", "c", "d", "a", "c", "d", "a", "b"]
    );
    assert_eq!(w.store_len(), 4);
    assert_eq!(w.persisted, 4);
    assert_eq!(&w.sleeps[..5], &[50, 50, 50, 200, 50]);
    assert!(w.sleeps[12..].iter().all(|millis| *millis == 200));
    // A success brings an endpoint back.
    w.upstreams.insert("c".to_string(), Upstream::Says("ok"));
    w.clock.instant += 3 * 3_600 * NANOS;
    assert_eq!(w.request("/1", "{}"), Some((200, "ok".to_string())));
    assert!(w.proxy.health_entries().unwrap().get(&endpoint_key("1", "c")).is_none());
}

#[test]
fn a_resting_endpoint_is_passed_over() {
    let mut w = world(
        &[("1", &["a", "b"])],
        &[("a", Upstream::Status(429)), ("b", Upstream::Says("ok"))],
        false,
    );
    for _ in 0..4 {
        assert_eq!(w.request("/1", "{}"), Some((200, "ok".to_string())));
    }
    assert_eq!(w.urls(), vec!["a", "b", "b", "b", "b"]);
    w.clock.instant += 60 * NANOS;
    assert_eq!(w.request("/1", "{}"), Some((200, "ok".to_string())));
    assert_eq!(w.hits("a"), 2);
}

#[test]
fn a_lookup_answers_for_every_target() {
    let mut w = world(
        &[
            ("1", &["bad", "good"]),
            ("2", &["refusing", "never"]),
            ("3", &[]),
            ("4", &["dead"]),
        ],
        &[
            ("bad", Upstream::Says("{\"result\":1}")),
            ("good", Upstream::Says("{\"result\":\"0x6080\"}")),
            ("refusing", Upstream::Says("{\"error\":{\"code\":-1}}")),
            ("never", Upstream::Says("{\"result\":\"0x\"}")),
            ("dead", Upstream::Status(503)),
        ],
        true,
    );
    let body = "{\"id\":\"q\",\"address\":\"0xA\"}";
    let (status, reply) = w.request("/sr_contract_chains", body).unwrap();
    assert_eq!(status, 200);
    assert_eq!(
        reply,
        "{\"id\":\"q\",\"jsonrpc\":\"2.0\",\"result\":{\"address\":\"0xA\",\"chains\":{\
         \"1\":{\"code\":\"0x6080\",\"exists\":true},\
         \"2\":{\"error\":\"json-rpc error: {\\\"code\\\":-1}\",\"exists\":false},\
         \"3\":{\"error\":\"no endpoints configured\",\"exists\":false},\
         \"4\":{\"error\":\"all endpoints failed\",\"exists\":false}}}}"
    );
    // No chain waits for another: the first three posts go out before anything is answered.
    assert_eq!(w.urls(), vec!["bad", "refusing", "dead", "good"]);
    assert_eq!(w.sleeps, vec![50]);
    let question = "{\"id\":\"sr_contract_chains\",\"jsonrpc\":\"2.0\",\
                    \"method\":\"eth_getCode\",\"params\":[\"0xA\",\"latest\"]}";
    assert!(w.posts.iter().all(|(_, payload)| payload == question));
}

#[test]
fn a_lookup_can_be_narrowed() {
    let mut w = world(
        &[("1", &["a"]), ("2", &["b"])],
        &[("a", Upstream::Says("{\"result\":\"0x00\"}")), ("b", Upstream::Status(429))],
        false,
    );
    let body = "{\"address\":\"0xA\",\"chains\":[\"2\",\"9\"]}";
    let (status, reply) = w.request("/sr_contract_chains", body).unwrap();
    assert_eq!(status, 200);
    assert_eq!(
        reply,
        "{\"id\":null,\"jsonrpc\":\"2.0\",\"result\":{\"address\":\"0xA\",\"chains\":{\
         \"2\":{\"error\":\"all endpoints failed\",\"exists\":false},\
         \"9\":{\"error\":\"chain not configured\",\"exists\":false}}}}"
    );
    assert_eq!(w.urls(), vec!["b"]);
    assert_eq!(w.sleeps, vec![50]);
    // The endpoint that asked for fewer requests now rests.
    let body = "{\"method\":\"sr_contract_chains\",\"params\":[\"0xA\"]}";
    let (_, reply) = w.request("/sr_contract_chains", body).unwrap();
    assert_eq!(
        reply,
        "{\"id\":null,\"jsonrpc\":\"2.0\",\"result\":{\"address\":\"0xA\",\"chains\":{\
         \"1\":{\"code\":\"0x00\",\"exists\":false},\
         \"2\":{\"error\":\"all endpoints failed\",\"exists\":false}}}}"
    );
    assert_eq!(w.urls(), vec!["b", "a"]);
}

#[test]
fn steps_that_cannot_be_taken_are_known() {
    let mut w = world(&[("1", &[])], &[], false);
    let turn = w.proxy.handle_request(&HeaderMap::new(), None, "/1");
    assert!(!w.proxy.accepts(&turn.exchange, &Event::News(News::Woke), w.clock));
    let late = Clock { instant: 0, unix: u64::MAX };
    assert!(!w.proxy.accepts(&turn.exchange, &Event::Body(None), late));
    let turn = w.proxy.advance(turn.exchange, Event::Body(Some(b"{}".to_vec())), w.clock);
    assert!(matches!(turn.action, Action::Proceed));
    // The chain has no endpoints to go to.
    assert!(!w.proxy.accepts(&turn.exchange, &Event::Proceed, w.clock));
    assert!(!w.proxy.accepts(&Exchange::Finished, &Event::News(News::Woke), w.clock));
}

#[test]
fn settings_are_kept() {
    let proxy = RpcProxy::with_timeout(&config(&[]), 2, Duration::from_secs(9), None);
    assert_eq!(proxy.verbose(), 2);
    assert_eq!(proxy.request_timeout(), Duration::from_secs(9));
    assert!(proxy.health_entries().is_none());
}

#[test]
fn requests_do_not_disturb_each_other() {
    let mut w = world(
        &[("1", &["a", "b"]), ("2", &["c"])],
        &[("a", Upstream::Silent), ("b", Upstream::Says("ok")), ("c", Upstream::Says("two"))],
        true,
    );
    let first = w.proxy.request_json("1", Json::Null).unwrap();
    let first = w.proxy.advance(first.exchange, Event::Proceed, w.clock);
    // Others come and go while the first request is with its endpoint.
    assert_eq!(w.request("/1", "{}"), Some((200, "ok".to_string())));
    assert_eq!(w.request("/2", "{}"), Some((200, "two".to_string())));
    assert!(w.proxy.accepts(&first.exchange, &Event::News(News::Unreachable), w.clock));
    let first = w.proxy.advance(first.exchange, Event::News(News::Unreachable), w.clock);
    assert!(matches!(first.action, Action::Sleep { millis: 50 }));
    let first = w.proxy.advance(first.exchange, Event::News(News::Woke), w.clock);
    match first.action {
        Action::Post { url, payload } => {
            assert_eq!(url, "b");
            assert_eq!(payload, "null");
        }
        _ => panic!("not sent on"),
    }
}

#[test]
fn every_target_is_asked_at_once() {
    let mut w = world(
        &[("1", &["a", "b"]), ("2", &["c"]), ("3", &[]), ("4", &["d"])],
        &[],
        false,
    );
    let turn = w.proxy.handle_request(&HeaderMap::new(), None, "/sr_contract_chains");
    let body = b"{\"address\":\"0xA\"}".to_vec();
    let turn = w.proxy.advance(turn.exchange, Event::Body(Some(body)), w.clock);
    let Action::Ask { inquiries } = turn.action else {
        panic!("nobody is asked");
    };
    let asked: Vec<(usize, &str)> = inquiries.iter().map(|i| (i.target, i.url.as_str())).collect();
    assert_eq!(asked, vec![(0, "a"), (1, "c"), (3, "d")]);
    // One target is settled while the others are still out.
    let answered = Event::Target { target: 3, news: News::Answered(200) };
    let turn = w.proxy.advance(turn.exchange, answered, w.clock);
    assert!(matches!(turn.action, Action::ReadReply));
    let told = News::ReplyBody(Some(b"{\"result\":\"0x\"}".to_vec()));
    let turn = w.proxy.advance(turn.exchange, Event::Target { target: 3, news: told }, w.clock);
    assert!(matches!(turn.action, Action::AwaitOthers));
    // It has nothing more to say, nor has the one without endpoints, nor one that is not there.
    for target in [2, 3, 4] {
        let event = Event::Target { target, news: News::Unreachable };
        assert!(!w.proxy.accepts(&turn.exchange, &event, w.clock));
    }
    for target in [0, 1] {
        let event = Event::Target { target, news: News::Unreachable };
        assert!(w.proxy.accepts(&turn.exchange, &event, w.clock));
    }
    assert_eq!(w.proxy.get_chain_state("1").unwrap().current_index, 1);
    assert_eq!(w.proxy.get_chain_state("2").unwrap().current_index, 1);
    assert_eq!(w.proxy.get_chain_state("3").unwrap().current_index, 0);
}

#[test]
fn the_order_of_news_does_not_matter() {
    let mut replies = Vec::new();
    for backwards in [false, true] {
        let mut w = world(
            &[("1", &["a", "b"]), ("2", &["c", "d"])],
            &[
                ("a", Upstream::Silent),
                ("b", Upstream::Says("{\"result\":\"0x1\"}")),
                ("c", Upstream::Broken),
                ("d", Upstream::Status(500)),
            ],
            true,
        );
        w.backwards = backwards;
        let body = "{\"address\":\"0xA\"}";
        replies.push(w.request("/sr_contract_chains", body).unwrap());
        assert_eq!(w.posts.len(), 4);
    }
    assert_eq!(replies[0], replies[1]);
    assert_eq!(
        replies[0].1,
        "{\"id\":null,\"jsonrpc\":\"2.0\",\"result\":{\"address\":\"0xA\",\"chains\":{\
         \"1\":{\"code\":\"0x1\",\"exists\":true},\
         \"2\":{\"error\":\"all endpoints failed\",\"exists\":false}}}}"
    );
}

#[test]
fn the_later_of_two_targets_with_one_name_counts() {
    for backwards in [false, true] {
        let mut w = world(
            &[("1", &["a", "b"])],
            &[
                ("a", Upstream::Says("{\"result\":\"0x1\"}")),
                ("b", Upstream::Says("{\"result\":\"0x2\"}")),
            ],
            false,
        );
        w.backwards = backwards;
        let body = "{\"address\":\"0xA\",\"chains\":[\"1\",\"1\"]}";
        let (_, reply) = w.request("/sr_contract_chains", body).unwrap();
        assert_eq!(w.urls(), vec!["a", "b"]);
        assert_eq!(
            reply,
            "{\"id\":null,\"jsonrpc\":\"2.0\",\"result\":{\"address\":\"0xA\",\"chains\":{\
             \"1\":{\"code\":\"0x2\",\"exists\":true}}}}"
        );
    }
}

#[test]
fn failures_in_a_lookup_are_counted_and_a_success_clears_them() {
    let mut w = world(
        &[("1", &["a"])],
        &[("a", Upstream::Says("{\"result\":1}"))],
        true,
    );
    let body = "{\"address\":\"0xA\"}";
    for _ in 0..2 {
        w.request("/sr_contract_chains", body).unwrap();
    }
    assert_eq!(w.store_len(), 0);
    w.request("/sr_contract_chains", body).unwrap();
    assert_eq!(w.store_len(), 1);
    assert_eq!(w.persisted, 1);
    w.clock.instant += 3 * 3_600 * NANOS;
    w.upstreams.insert("a".to_string(), Upstream::Says("{\"result\":\"0x1\"}"));
    w.request("/sr_contract_chains", body).unwrap();
    assert_eq!(w.store_len(), 0);
    assert_eq!(w.persisted, 2);
}
