use singlerpc::json::Json;
use singlerpc::lookup::answer_lookup;
use singlerpc::lookup::ask_for_code;
use singlerpc::lookup::code_is_empty;
use singlerpc::lookup::extract_contract_params;
use singlerpc::lookup::judge_reply;
use singlerpc::lookup::parse_chain_list;
use singlerpc::lookup::read_code_answer;
use singlerpc::lookup::record_code;
use singlerpc::lookup::record_failure;
use singlerpc::lookup::refuse_lookup;
use singlerpc::lookup::CodeAnswer;

fn parse(text: &str) -> Json {
    match Json::parse(text.as_bytes()) {
        Ok(json) => json,
        Err(message) => panic!("{message}"),
    }
}

fn params(text: &str) -> Result<(String, Option<Vec<String>>), String> {
    extract_contract_params(&parse(text))
}

fn asked(address: &str, chains: Option<Vec<&str>>) -> Result<(String, Option<Vec<String>>), String> {
    Ok((
        address.to_string(),
        chains.map(|list| list.into_iter().map(|s| s.to_string()).collect()),
    ))
}

fn refused(message: &str) -> Result<(String, Option<Vec<String>>), String> {
    Err(message.to_string())
}

#[test]
fn a_document_is_written_as_it_was_read() {
    for text in [
        "null",
        "true",
        "0",
        "-7",
        "1.5",
        "1e300",
        "18446744073709551615",
        "\"a\\n\\u00e9\"",
        "[]",
        "[1,[2,[]],{\"a\":null}]",
        "{\"a\":1,\"b\":{\"c\":[true,false]}}",
    ] {
        let value: serde_json::Value = serde_json::from_str(text).unwrap();
        assert_eq!(parse(text).render(), value.to_string());
    }
}

#[test]
fn the_members_of_an_object_have_no_order() {
    assert_eq!(parse(" { \"b\" : 1, \"a\" : 2 } ").render(), "{\"a\":2,\"b\":1}");
    let json = Json::Object(vec![
        ("a".to_string(), Json::Bool(true)),
        ("a".to_string(), Json::Null),
    ]);
    assert!(matches!(json.get("a"), Some(Json::Null)));
    assert_eq!(json.render(), "{\"a\":null}");
}

#[test]
fn the_later_of_two_members_with_one_name_counts() {
    let json = parse("{\"a\":1,\"a\":\"x\"}");
    assert_eq!(json.get("a").and_then(|m| m.as_str()), Some("x"));
    assert!(json.get("b").is_none());
    assert_eq!(json.into_member("a").map(|m| m.render()), Some("\"x\"".to_string()));
    assert!(parse("[\"a\"]").get("a").is_none());
    assert!(parse("1").into_member("a").is_none());
}

#[test]
fn bytes_that_spell_no_document_are_refused() {
    for bytes in [&b""[..], b"{", b"{\"a\":1} x", b"'a'", b"\"\xff\""] {
        let message = Json::parse(bytes).err().unwrap();
        let expected = serde_json::from_slice::<serde_json::Value>(bytes)
            .unwrap_err()
            .to_string();
        assert_eq!(message, expected);
    }
}

#[test]
fn a_request_may_be_the_object_of_its_parameters() {
    assert_eq!(params("{\"address\":\"0xA\"}"), asked("0xA", None));
    assert_eq!(
        params("{\"address\":\"0xA\",\"chains\":[\"1\",2,\"56\"]}"),
        asked("0xA", Some(vec!["1", "56"]))
    );
    assert_eq!(params("{\"address\":\"0xA\",\"chains\":[2]}"), asked("0xA", None));
    assert_eq!(params("{\"address\":\"0xA\",\"chains\":\"1\"}"), asked("0xA", None));
    assert_eq!(params("{\"method\":5,\"address\":\"0xA\"}"), asked("0xA", None));
    assert_eq!(params("{\"address\":5}"), refused("address is required"));
    assert_eq!(params("[]"), refused("address is required"));
}

#[test]
fn a_request_may_name_the_method() {
    let method = "\"method\":\"sr_contract_chains\"";
    assert_eq!(
        params(&format!("{{{method},\"params\":[\"0xA\",[\"1\"]]}}")),
        asked("0xA", Some(vec!["1"]))
    );
    assert_eq!(params(&format!("{{{method},\"params\":[\"0xA\"]}}")), asked("0xA", None));
    assert_eq!(
        params(&format!("{{{method},\"params\":{{\"address\":\"0xA\",\"chains\":[\"1\"]}}}}")),
        asked("0xA", Some(vec!["1"]))
    );
    assert_eq!(
        params(&format!("{{{method},\"params\":[1]}}")),
        refused("params[0] must be the contract address string")
    );
    assert_eq!(
        params(&format!("{{{method},\"params\":{{}}}}")),
        refused("params.address is required")
    );
    assert_eq!(params(&format!("{{{method},\"params\":[]}}")), refused("address is required"));
    assert_eq!(params(&format!("{{{method},\"params\":\"0xA\"}}")), refused("address is required"));
    assert_eq!(
        params(&format!("{{{method},\"address\":\"0xA\"}}")),
        refused("address is required")
    );
    assert_eq!(
        params("{\"method\":\"eth_call\",\"params\":[\"0xA\"]}"),
        refused("invalid method; expected sr_contract_chains")
    );
}

#[test]
fn a_chain_list_is_the_strings_of_an_array() {
    assert_eq!(parse_chain_list(&parse("[]")), None);
    assert_eq!(parse_chain_list(&parse("[null]")), None);
    assert_eq!(parse_chain_list(&parse("{}")), None);
    assert_eq!(
        parse_chain_list(&parse("[\"1\",null,\"1\"]")),
        Some(vec!["1".to_string(), "1".to_string()])
    );
}

#[test]
fn code_of_zeros_is_no_code() {
    for code in ["", "  ", "0x", "0X", " 0x00 ", "0X0000"] {
        assert!(code_is_empty(code), "{code}");
    }
    for code in ["0x60806040", "0x01", "00", "x", "0", "0x 0", "0xg"] {
        assert!(!code_is_empty(code), "{code}");
    }
}

#[test]
fn the_question_asks_for_the_latest_code() {
    assert_eq!(
        ask_for_code("0xA").render(),
        "{\"id\":\"sr_contract_chains\",\"jsonrpc\":\"2.0\",\"method\":\"eth_getCode\",\
         \"params\":[\"0xA\",\"latest\"]}"
    );
}

#[test]
fn records_say_whether_there_is_code() {
    assert_eq!(
        record_code("0x60".to_string()).render(),
        "{\"code\":\"0x60\",\"exists\":true}"
    );
    assert_eq!(
        record_code("0x".to_string()).render(),
        "{\"code\":\"0x\",\"exists\":false}"
    );
    assert_eq!(
        record_failure("chain not configured").render(),
        "{\"error\":\"chain not configured\",\"exists\":false}"
    );
}

#[test]
fn replies_carry_the_id_of_the_request() {
    assert_eq!(
        refuse_lookup(Some(parse("7")), "address is required").render(),
        "{\"error\":{\"code\":-32602,\"message\":\"address is required\"},\"id\":7,\
         \"jsonrpc\":\"2.0\"}"
    );
    assert_eq!(
        answer_lookup(
            None,
            "0xA",
            vec![
                ("1".to_string(), record_failure("x")),
                ("1".to_string(), record_code("0x1".to_string())),
            ]
        )
        .render(),
        "{\"id\":null,\"jsonrpc\":\"2.0\",\"result\":{\"address\":\"0xA\",\
         \"chains\":{\"1\":{\"code\":\"0x1\",\"exists\":true}}}}"
    );
}

#[test]
fn an_answer_is_code_or_an_error_or_nothing() {
    match read_code_answer(b"{\"result\":\"0x60\"}") {
        CodeAnswer::Code(code) => assert_eq!(code, "0x60"),
        _ => panic!("no code"),
    }
    match read_code_answer(b"{\"result\":\"0x60\",\"error\":{\"code\": -1}}") {
        CodeAnswer::Refused(message) => assert_eq!(message, "json-rpc error: {\"code\":-1}"),
        _ => panic!("no error"),
    }
    match judge_reply(parse("{\"error\":null}")) {
        CodeAnswer::Refused(message) => assert_eq!(message, "json-rpc error: null"),
        _ => panic!("no error"),
    }
    for body in [&b"{\"result\":1}"[..], b"{}", b"[]", b"nonsense"] {
        assert!(matches!(read_code_answer(body), CodeAnswer::Unusable));
    }
}
