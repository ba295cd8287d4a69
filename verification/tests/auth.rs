use hyper::http::header::HeaderValue;
use hyper::http::header::AUTHORIZATION;
use hyper::http::HeaderMap;
use singlerpc::auth::choose_token;
use singlerpc::RpcProxy;

#[test]
fn extracts_custom_header_token() {
    let mut headers = HeaderMap::new();
    headers.insert("x-singlerpc-auth", HeaderValue::from_static("secret"));
    let token = RpcProxy::extract_auth_token(&headers, None);
    assert_eq!(token.as_deref(), Some("secret"));
}

#[test]
fn extracts_bearer_header_token() {
    let mut headers = HeaderMap::new();
    headers.insert(AUTHORIZATION, HeaderValue::from_static("Bearer abc123 "));
    let token = RpcProxy::extract_auth_token(&headers, None);
    assert_eq!(token.as_deref(), Some("abc123"));
}

#[test]
fn extracts_query_token() {
    let headers = HeaderMap::new();
    let token = RpcProxy::extract_auth_token(&headers, Some("foo=bar&auth=qwerty"));
    assert_eq!(token.as_deref(), Some("qwerty"));
}

#[test]
fn field_names_are_found_in_any_case() {
    let mut headers = HeaderMap::new();
    headers.insert(
        hyper::http::header::HeaderName::from_bytes(b"X-SingleRPC-Auth").unwrap(),
        HeaderValue::from_static("  secret\t"),
    );
    let token = RpcProxy::extract_auth_token(&headers, None);
    assert_eq!(token.as_deref(), Some("secret"));
}

#[test]
fn the_first_of_several_values_counts() {
    let mut headers = HeaderMap::new();
    headers.append("x-singlerpc-auth", HeaderValue::from_static("one"));
    headers.append("x-singlerpc-auth", HeaderValue::from_static("two"));
    let token = RpcProxy::extract_auth_token(&headers, None);
    assert_eq!(token.as_deref(), Some("one"));
}

#[test]
fn the_custom_field_goes_before_the_others() {
    let mut headers = HeaderMap::new();
    headers.insert("x-singlerpc-auth", HeaderValue::from_static("custom"));
    headers.insert(AUTHORIZATION, HeaderValue::from_static("Bearer bearer"));
    let token = RpcProxy::extract_auth_token(&headers, Some("auth=query"));
    assert_eq!(token.as_deref(), Some("custom"));
}

#[test]
fn the_authorization_field_goes_before_the_query() {
    let mut headers = HeaderMap::new();
    headers.insert("x-singlerpc-auth", HeaderValue::from_static("   "));
    headers.insert(AUTHORIZATION, HeaderValue::from_static("Bearer bearer"));
    let token = RpcProxy::extract_auth_token(&headers, Some("auth=query"));
    assert_eq!(token.as_deref(), Some("bearer"));
}

#[test]
fn an_authorization_field_without_bearer_is_the_token() {
    let mut headers = HeaderMap::new();
    headers.insert(AUTHORIZATION, HeaderValue::from_static(" plain "));
    assert_eq!(
        RpcProxy::extract_auth_token(&headers, None).as_deref(),
        Some("plain")
    );
    headers.insert(AUTHORIZATION, HeaderValue::from_static("Bearer   "));
    assert_eq!(
        RpcProxy::extract_auth_token(&headers, None).as_deref(),
        Some("Bearer")
    );
}

#[test]
fn a_field_that_is_not_visible_text_is_passed_over() {
    let mut headers = HeaderMap::new();
    headers.insert(
        "x-singlerpc-auth",
        HeaderValue::from_bytes(&[b's', 0xe9, b'c']).unwrap(),
    );
    let token = RpcProxy::extract_auth_token(&headers, Some("auth=query"));
    assert_eq!(token.as_deref(), Some("query"));
}

#[test]
fn a_query_is_decoded() {
    let headers = HeaderMap::new();
    let token = RpcProxy::extract_auth_token(&headers, Some("auth=&auth=a%2Fb+c&auth=d"));
    assert_eq!(token.as_deref(), Some("a/b c"));
}

#[test]
fn plain_pairs_of_a_query_come_out_as_they_stand() {
    let headers = HeaderMap::new();
    for token in ["t", "a=b", "\u{fc}ber", "a b", "=", ";x"] {
        let query = format!("auth={token}");
        assert_eq!(
            RpcProxy::extract_auth_token(&headers, Some(&query)).as_deref(),
            Some(token)
        );
    }
}

#[test]
fn no_token_is_made_up() {
    let headers = HeaderMap::new();
    assert_eq!(RpcProxy::extract_auth_token(&headers, None), None);
    assert_eq!(RpcProxy::extract_auth_token(&headers, Some("")), None);
    assert_eq!(RpcProxy::extract_auth_token(&headers, Some("auth")), None);
    assert_eq!(RpcProxy::extract_auth_token(&headers, Some("Auth=x")), None);
}

#[test]
fn tokens_are_chosen_from_what_was_read() {
    let pairs = vec![
        ("a".to_string(), "1".to_string()),
        ("auth".to_string(), "".to_string()),
        ("auth".to_string(), "2".to_string()),
    ];
    assert_eq!(choose_token(None, None, &pairs).as_deref(), Some("2"));
    assert_eq!(
        choose_token(None, Some("Bearer x"), &pairs).as_deref(),
        Some("x")
    );
    assert_eq!(
        choose_token(Some("y"), Some("Bearer x"), &pairs).as_deref(),
        Some("y")
    );
    assert_eq!(
        choose_token(Some(" "), Some(" "), &pairs).as_deref(),
        Some("2")
    );
    assert_eq!(choose_token(None, None, &Vec::new()), None);
}

#[test]
fn only_the_expected_token_authorizes() {
    let mut headers = HeaderMap::new();
    assert!(!RpcProxy::is_authorized(&headers, None, "secret"));
    headers.insert("x-singlerpc-auth", HeaderValue::from_static("secret"));
    assert!(RpcProxy::is_authorized(&headers, None, "secret"));
    assert!(!RpcProxy::is_authorized(&headers, None, "Secret"));
    assert!(!RpcProxy::is_authorized(&headers, None, ""));
}
