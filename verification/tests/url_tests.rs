use stomp_codec::address::{StompUrl, StompUrlError};

#[test]
fn new_accepts_a_secure_websocket_url() {
    let result = StompUrl::new("wss://example.com").unwrap();
    assert_eq!(result.text(), "wss://example.com/");
}

#[test]
fn new_rejects_other_schemes() {
    let result = StompUrl::new("http://example.com");
    assert_eq!(result, Err(StompUrlError::InvalidScheme));
}

#[test]
fn new_rejects_fragments() {
    let result = StompUrl::new("wss://example.com/#fragment");
    assert_eq!(result, Err(StompUrlError::HasFragment));
}

#[test]
fn new_rejects_relative_urls() {
    let result = StompUrl::new("foobar");
    assert!(matches!(result, Err(StompUrlError::InvalidUrl(..))));
}
