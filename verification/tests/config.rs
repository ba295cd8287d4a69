use singlerpc::config::build_config;
use singlerpc::config::config_of;
use singlerpc::config::decimal_text;
use singlerpc::config::default_health_store_path;
use singlerpc::config::ChainEntry;
use singlerpc::config::RpcEntry;
use singlerpc::config::RpcObject;
use singlerpc::load_config_from_str;

fn simple(url: &str) -> RpcEntry {
    RpcEntry::Simple(url.to_string())
}

fn detailed(url: Option<&str>) -> RpcEntry {
    RpcEntry::Detailed(RpcObject { url: url.map(|u| u.to_string()) })
}

fn chain(chain_id: u64, is_testnet: bool, rpc: Vec<RpcEntry>) -> ChainEntry {
    ChainEntry { chain_id, is_testnet, rpc }
}

#[test]
fn a_configuration_is_read() {
    let config = load_config_from_str(
        "{\"eth-mainnet\": [\"https://rpc1.example.com\", \"https://rpc2.example.com\"], \
         \"polygon\": [\"https://polygon-rpc.example.com\"], \"none\": []}",
    )
    .unwrap();
    assert_eq!(config.len(), 3);
    assert_eq!(
        config.get("eth-mainnet"),
        Some(&vec![
            "https://rpc1.example.com".to_string(),
            "https://rpc2.example.com".to_string()
        ])
    );
    assert_eq!(
        config.get("polygon"),
        Some(&vec!["https://polygon-rpc.example.com".to_string()])
    );
    assert_eq!(config.get("none"), Some(&Vec::new()));
    assert_eq!(config.get("other"), None);
}

#[test]
fn a_text_that_is_no_configuration_is_refused() {
    assert!(load_config_from_str("").is_err());
    assert!(load_config_from_str("[]").is_err());
    assert!(load_config_from_str("{\"1\": \"http://a\"}").is_err());
    assert!(load_config_from_str("{\"1\": [1]}").is_err());
    assert_eq!(
        load_config_from_str("{").err(),
        Some("EOF while parsing an object at line 1 column 1".to_string())
    );
}

#[test]
fn the_later_of_two_chains_with_one_name_counts() {
    let config = config_of(vec![
        ("1".to_string(), vec!["http://a".to_string()]),
        ("1".to_string(), vec!["http://b".to_string()]),
    ]);
    assert_eq!(config.len(), 1);
    assert_eq!(config.get("1"), Some(&vec!["http://b".to_string()]));
}

#[test]
fn a_snapshot_keeps_distinct_web_addresses() {
    let config = build_config(&vec![chain(
        1,
        false,
        vec![
            simple(" https://a "),
            simple("wss://b"),
            detailed(Some("http://c")),
            detailed(None),
            simple("https://a"),
            simple("http"),
        ],
    )]);
    assert_eq!(config.len(), 1);
    assert_eq!(
        config.get("1"),
        Some(&vec!["https://a".to_string(), "http://c".to_string()])
    );
}

#[test]
fn a_snapshot_leaves_out_test_networks_and_empty_chains() {
    let config = build_config(&vec![
        chain(5, true, vec![simple("https://a")]),
        chain(7, false, vec![simple("wss://b")]),
        chain(10, false, vec![simple("https://c")]),
        chain(10, false, vec![]),
    ]);
    assert_eq!(config.len(), 1);
    assert_eq!(config.get("10"), Some(&vec!["https://c".to_string()]));
    assert_eq!(config.entry(0).0, "10");
}

#[test]
fn numbers_are_written_in_decimal() {
    for n in [0, 7, 10, 42161, 7777777, u64::MAX] {
        assert_eq!(decimal_text(n), n.to_string());
    }
}

#[test]
fn the_health_file_has_a_default_place() {
    let parts = |p: Option<Vec<String>>| p.map(|v| v.join("|"));
    assert_eq!(
        parts(default_health_store_path(Some(" /x/h.json "), Some("/root"))),
        Some("/x/h.json".to_string())
    );
    assert_eq!(parts(default_health_store_path(Some("  "), Some("/root"))), None);
    assert_eq!(
        parts(default_health_store_path(None, Some(" /root"))),
        Some(" /root|.singlerpc|health.json".to_string())
    );
    assert_eq!(parts(default_health_store_path(None, Some(" "))), None);
    assert_eq!(parts(default_health_store_path(None, None)), None);
}
