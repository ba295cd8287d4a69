use singlerpc::endpoint::RpcEndpoint;
use singlerpc::health::endpoint_key;
use singlerpc::health::unix_now;
use singlerpc::health::unix_seconds;
use singlerpc::health::Clock;
use singlerpc::health::EndpointHealthStore;
use singlerpc::health::PersistedEndpointHealth;
use singlerpc::string_map::StringMap;

const HOUR: u64 = 3_600;
const NANOS: u64 = 1_000_000_000;

fn kept(entries: &[(&str, &str, u64)]) -> StringMap<PersistedEndpointHealth> {
    let mut map = StringMap::new();
    for (chain_id, url, unavailable_until) in entries {
        map.insert(
            endpoint_key(chain_id, url),
            PersistedEndpointHealth {
                chain_id: chain_id.to_string(),
                url: url.to_string(),
                reason: "dead".to_string(),
                unavailable_until: *unavailable_until,
            },
        );
    }
    map
}

#[test]
fn keys_join_chain_and_address() {
    assert_eq!(endpoint_key("1", "http://a"), "1\nhttp://a");
    assert_ne!(endpoint_key("1", "1"), endpoint_key("11", ""));
}

#[test]
fn the_system_clock_is_read() {
    let by_hand = std::time::SystemTime::now()
        .duration_since(std::time::UNIX_EPOCH)
        .unwrap()
        .as_secs();
    let now = unix_now();
    assert!(by_hand <= now && now <= by_hand + 15);
    assert_eq!(unix_seconds(Some(5)), 5);
    assert_eq!(unix_seconds(None), 0);
}

#[test]
fn a_store_begins_with_what_is_in_force() {
    let store = EndpointHealthStore::load(
        kept(&[("1", "a", 99), ("1", "b", 100), ("2", "c", 101), ("3", "d", 7)]),
        100,
    );
    assert_eq!(store.entries().len(), 1);
    let (key, entry) = store.entries().entry(0);
    assert_eq!(key, "2\nc");
    assert_eq!(entry.unavailable_until, 101);
}

#[test]
fn what_is_left_of_a_death_is_told() {
    let mut store = EndpointHealthStore::load(StringMap::new(), 0);
    assert_eq!(store.remaining_dead_duration("1", "a", 10), (None, false));
    store.mark_dead("1", "a", 50, 10);
    let entry = store.entries().get("1\na").unwrap();
    assert_eq!(entry.chain_id, "1");
    assert_eq!(entry.url, "a");
    assert_eq!(entry.reason, "dead");
    assert_eq!(entry.unavailable_until, 60);
    assert_eq!(store.remaining_dead_duration("1", "a", 20), (Some(40), false));
    assert_eq!(store.remaining_dead_duration("2", "a", 20), (None, false));
    assert_eq!(store.remaining_dead_duration("1", "a", 60), (None, true));
    assert_eq!(store.entries().len(), 0);
}

#[test]
fn a_death_can_be_cleared() {
    let mut store = EndpointHealthStore::load(kept(&[("1", "a", 9), ("1", "b", 9)]), 0);
    assert!(store.clear("1", "a"));
    assert!(!store.clear("1", "a"));
    assert_eq!(store.entries().len(), 1);
    assert!(store.entries().get("1\nb").is_some());
}

#[test]
fn the_third_failure_in_a_row_sends_an_endpoint_to_rest() {
    let mut endpoint = RpcEndpoint::new("http://a".to_string());
    assert_eq!(endpoint.url, "http://a");
    let mut store = None;
    let clock = Clock { instant: 5, unix: 1_000 };
    assert!(!endpoint.mark_hard_failure(&mut store, clock));
    assert!(!endpoint.mark_hard_failure(&mut store, clock));
    assert!(endpoint.is_healthy(5));
    assert!(!endpoint.mark_hard_failure(&mut store, clock));
    assert!(!endpoint.is_healthy(5));
    assert!(!endpoint.is_healthy(3 * HOUR * NANOS + 4));
    assert!(endpoint.is_healthy(3 * HOUR * NANOS + 5));
    // The rest is over, and the count begins anew.
    assert!(!endpoint.mark_hard_failure(&mut store, clock));
    assert!(!endpoint.mark_hard_failure(&mut store, clock));
    assert!(endpoint.is_healthy(5));
}

#[test]
fn only_a_death_reaches_the_store() {
    let mut endpoint = RpcEndpoint::for_chain("1".to_string(), "http://a".to_string());
    let mut store = Some(EndpointHealthStore::load(StringMap::new(), 0));
    let clock = Clock { instant: 0, unix: 1_000 };
    assert!(!endpoint.mark_hard_failure(&mut store, clock));
    assert!(!endpoint.mark_hard_failure(&mut store, clock));
    assert_eq!(store.as_ref().unwrap().entries().len(), 0);
    assert!(endpoint.mark_hard_failure(&mut store, clock));
    let entry = store.as_ref().unwrap().entries().get("1\nhttp://a").unwrap();
    assert_eq!(entry.unavailable_until, 1_000 + 3 * HOUR);
    assert!(endpoint.reset(&mut store));
    assert!(!endpoint.reset(&mut store));
    assert_eq!(store.as_ref().unwrap().entries().len(), 0);
    assert!(endpoint.is_healthy(0));
    assert!(endpoint.can_count());
}

#[test]
fn a_call_for_fewer_requests_rests_for_a_minute() {
    let mut endpoint = RpcEndpoint::new("http://a".to_string());
    endpoint.mark_rate_limited(7);
    assert!(!endpoint.is_healthy(60 * NANOS + 6));
    assert!(endpoint.is_healthy(60 * NANOS + 7));
}

#[test]
fn a_restored_endpoint_rests_as_long_as_it_is_told() {
    let mut endpoint = RpcEndpoint::new("http://a".to_string());
    endpoint.restore_dead_until(u64::MAX, 0);
    assert!(!endpoint.is_healthy(u64::MAX));
    endpoint.restore_dead_until(2, 1);
    assert!(!endpoint.is_healthy(2 * NANOS));
    assert!(endpoint.is_healthy(2 * NANOS + 1));
}

#[test]
fn a_map_holds_each_key_once() {
    let mut map: StringMap<Vec<String>> = StringMap::new();
    assert_eq!(map.len(), 0);
    map.insert("a".to_string(), vec!["1".to_string()]);
    map.insert("b".to_string(), vec!["2".to_string()]);
    map.insert("a".to_string(), vec!["3".to_string()]);
    assert_eq!(map.len(), 2);
    assert_eq!(map.entry(0).0, "a");
    assert_eq!(map.get("a"), Some(&vec!["3".to_string()]));
    assert!(map.remove("a"));
    assert!(!map.remove("a"));
    assert_eq!(map.get("a"), None);
    assert_eq!(map.get("b"), Some(&vec!["2".to_string()]));
}
