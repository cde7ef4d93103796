use stomp_codec::command::StompCommand;
use stomp_codec::frame::{StompFrame, StompFrameError};
use stomp_codec::text::escape_header;

#[test]
fn from_send_frame_into_preserves_content() {
    let frame = StompFrame::new(
        StompCommand::SEND,
        vec![("header1".to_string(), "a\\\\r\r\n:".to_string())],
        b"body".to_vec(),
    )
    .unwrap();
    let serialized: Vec<u8> = frame.to_bytes();
    let deserialized = StompFrame::try_from(serialized.as_slice()).unwrap();
    assert_eq!(frame, deserialized);
}

#[test]
fn from_connected_frame_into_preserves_content() {
    let frame = StompFrame::new(
        StompCommand::CONNECTED,
        vec![("header1".to_string(), "  ab\\r\\n\\c\\\\".to_string())],
        b"".to_vec(),
    )
    .unwrap();
    let serialized: Vec<u8> = frame.to_bytes();
    let deserialized = StompFrame::try_from(serialized.as_slice()).unwrap();
    assert_eq!(frame, deserialized);
}

#[test]
fn message_frame_with_declared_length_round_trips() {
    let frame = StompFrame::new(
        StompCommand::MESSAGE,
        vec![("content-length".to_string(), "9".to_string())],
        b"body123\0\0".to_vec(),
    )
    .unwrap();
    let serialized: Vec<u8> = frame.to_bytes();
    let deserialized = StompFrame::try_from(serialized.as_slice()).unwrap();
    assert_eq!(frame, deserialized);
}

#[test]
fn new_rejects_body_on_bodyless_command() {
    let result = StompFrame::new(StompCommand::ACK, vec![], b"body".to_vec());
    match result {
        Err(StompFrameError::SyntaxError(msg)) => {
            assert_eq!(msg, "frame type ACK must not have a body");
        },
        _ => panic!("expected a syntax error"),
    }
}

#[test]
fn new_normalizes_empty_body_to_none() {
    let frame = StompFrame::new(StompCommand::ACK, vec![], b"".to_vec()).unwrap();
    assert!(frame.body.is_none());
}

#[test]
fn to_bytes_emits_exact_wire_format() {
    let bare = StompFrame::new(StompCommand::DISCONNECT, vec![], b"".to_vec()).unwrap();
    assert_eq!(bare.to_bytes(), b"DISCONNECT\n\n\0".to_vec());

    let send = StompFrame::new(
        StompCommand::SEND,
        vec![("h".to_string(), "v".to_string())],
        b"hi".to_vec(),
    )
    .unwrap();
    assert_eq!(send.to_bytes(), b"SEND\nh:v\n\nhi\0".to_vec());
}

#[test]
fn escape_header_escapes_reserved_characters() {
    let escaped = escape_header("a:b\\c\r\n", StompCommand::SEND);
    assert_eq!(escaped, "a\\cb\\\\c\\r\\n");
}

#[test]
fn escape_header_leaves_connect_headers_verbatim() {
    let raw = "a:b\\c\r\n";
    assert_eq!(escape_header(raw, StompCommand::CONNECT), raw);
    assert_eq!(escape_header(raw, StompCommand::CONNECTED), raw);
}

#[test]
fn command_policies_match_the_registry() {
    assert!(StompCommand::SEND.may_have_body());
    assert!(StompCommand::MESSAGE.may_have_body());
    assert!(StompCommand::ERROR.may_have_body());
    assert!(!StompCommand::ACK.may_have_body());
    assert!(!StompCommand::CONNECT.may_have_body());

    assert!(!StompCommand::CONNECT.has_escaped_headers());
    assert!(!StompCommand::CONNECTED.has_escaped_headers());
    assert!(StompCommand::SEND.has_escaped_headers());
    assert!(StompCommand::STOMP.has_escaped_headers());

    assert!(StompCommand::CONNECTED.is_server_cmd());
    assert!(StompCommand::MESSAGE.is_server_cmd());
    assert!(!StompCommand::SEND.is_server_cmd());
}
