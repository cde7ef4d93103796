use stomp_codec::command::StompCommand;
use stomp_codec::frame::{StompFrame, StompFrameError};

#[test]
fn from_unknown_command_returns_error() {
    let frame = b"nonsense\r\n\r\n\0";
    let result = StompFrame::try_from(&frame[..]);
    assert!(matches!(result, Err(StompFrameError::SyntaxError(..))));
}

#[test]
fn from_cr_lf_swapped_returns_error() {
    let frame = b"CONNECT\n\r\r\n\0";
    let result = StompFrame::try_from(&frame[..]);
    assert!(matches!(result, Err(StompFrameError::SyntaxError(..))));
}

#[test]
fn from_non_utf8_headers_returns_error() {
    let frame = b"SEND\n\
                  header1:val\xc3\x28e1\n\
                  \n\
                  body\0";
    let result = StompFrame::try_from(&frame[..]);
    assert!(matches!(result, Err(StompFrameError::EncodingError(..))));
}

#[test]
fn from_missing_null_terminator_returns_error() {
    let frame = b"CONNECT\r\n\r\n";
    let result = StompFrame::try_from(&frame[..]);
    assert!(matches!(result, Err(StompFrameError::SyntaxError(..))));
}

#[test]
fn from_content_len_overrun_returns_error() {
    let frame = b"SEND\n\
                  content-length:5\n\
                  \n\
                  body\0\n";
    let result = StompFrame::try_from(&frame[..]);
    assert!(matches!(result, Err(StompFrameError::SyntaxError(..))));
}

#[test]
fn from_invalid_escape_returns_error() {
    let frame = b"SEND\n\
                  header1:abc\\tdef\n\
                  \n\0";
    let result = StompFrame::try_from(&frame[..]);
    assert!(matches!(result, Err(StompFrameError::SyntaxError(..))));
}

#[test]
fn from_incomplete_escape_returns_error() {
    let frame = b"SEND\n\
                  header1:abc\\\n\
                  \n\0";
    let result = StompFrame::try_from(&frame[..]);
    assert!(matches!(result, Err(StompFrameError::SyntaxError(..))));
}

#[test]
fn from_ack_with_body_returns_error() {
    let frame = b"ACK\n\nbody\0\n\n";
    let result = StompFrame::try_from(&frame[..]);
    assert!(matches!(result, Err(StompFrameError::SyntaxError(..))));
}

#[test]
fn from_send_frame_returns_ok() {
    let frame = b"SEND\n\nbody\0\n\n";
    let result = StompFrame::try_from(&frame[..]).unwrap();
    assert_eq!(result.cmd, StompCommand::SEND);
    assert!(result.headers.is_empty());
    assert_eq!(result.body, Some(b"body".to_vec()));
}

#[test]
fn from_connected_frame_returns_ok() {
    let frame = b"CONNECTED\n\
                  header1:  a\\\\b\\r\\n\\c   \n\
                  \n\0";
    let result = StompFrame::try_from(&frame[..]).unwrap();
    assert_eq!(result.cmd, StompCommand::CONNECTED);
    assert_eq!(
        result.headers,
        vec![("header1".to_string(), "  a\\\\b\\r\\n\\c   ".to_string())]
    );
    assert!(result.body.is_none());
}

#[test]
fn from_error_frame_returns_ok() {
    let frame = b"ERROR\n\
                  header1:foobar\n\
                  header1:oldvalue1\n\
                  header1:oldvalue2\n\
                  \n\
                  body123\0";
    let result = StompFrame::try_from(&frame[..]).unwrap();
    assert_eq!(result.cmd, StompCommand::ERROR);
    assert_eq!(
        result.headers,
        vec![("header1".to_string(), "foobar".to_string())]
    );
    assert_eq!(result.body, Some(b"body123".to_vec()));
}

#[test]
fn from_message_frame_returns_ok() {
    let frame = b"MESSAGE\n\
                  content-length:9\r\n\
                  header1:a\\\\r\\r\\n\\c\n\
                  \n\
                  body123\0\0\0\n\
                  \n\
                  \n";
    let result = StompFrame::try_from(&frame[..]).unwrap();
    assert_eq!(result.cmd, StompCommand::MESSAGE);
    assert_eq!(
        result.headers,
        vec![
            ("content-length".to_string(), "9".to_string()),
            ("header1".to_string(), "a\\r\r\n:".to_string()),
        ]
    );
    assert_eq!(result.body, Some(b"body123\0\0".to_vec()));
}

#[test]
fn from_invalid_content_length_returns_header_error() {
    let frame = b"SEND\n\
                  content-length:abc\n\
                  \n\
                  body\0";
    let result = StompFrame::try_from(&frame[..]);
    match result {
        Err(StompFrameError::HeaderError(name, value)) => {
            assert_eq!(name, "content-length");
            assert_eq!(value, "abc");
        },
        _ => panic!("expected a header-value error"),
    }
}

#[test]
fn from_oversized_content_length_returns_header_error() {
    let frame = b"SEND\n\
                  content-length:99999999999999999999999999\n\
                  \n\
                  body\0";
    let result = StompFrame::try_from(&frame[..]);
    assert!(matches!(result, Err(StompFrameError::HeaderError(..))));
}

#[test]
fn from_zero_content_length_returns_ok_without_body() {
    let frame = b"SEND\ncontent-length:0\n\n\0";
    let result = StompFrame::try_from(&frame[..]).unwrap();
    assert_eq!(result.cmd, StompCommand::SEND);
    assert!(result.body.is_none());
}

#[test]
fn syntax_error_carries_the_offending_input() {
    let frame = b"nonsense\r\n\r\n\0";
    let result = StompFrame::try_from(&frame[..]);
    match result {
        Err(StompFrameError::SyntaxError(at)) => {
            assert_eq!(at, "nonsense\r\n\r\n\u{0}");
        },
        _ => panic!("expected a syntax error"),
    }
}

#[test]
fn bytes_after_the_terminator_are_discarded() {
    let frame = b"SEND\n\nbody\0\n\nBEGIN\n\n\0";
    let result = StompFrame::try_from(&frame[..]).unwrap();
    assert_eq!(result.cmd, StompCommand::SEND);
    assert_eq!(result.body, Some(b"body".to_vec()));
}

#[test]
fn empty_header_key_returns_error() {
    let frame = b"SEND\n:value\n\n\0";
    let result = StompFrame::try_from(&frame[..]);
    assert!(matches!(result, Err(StompFrameError::SyntaxError(..))));
}

#[test]
fn header_line_without_separator_returns_error() {
    let frame = b"SEND\nheader1\n\n\0";
    let result = StompFrame::try_from(&frame[..]);
    assert!(matches!(result, Err(StompFrameError::SyntaxError(..))));
}

#[test]
fn header_value_may_be_empty() {
    let frame = b"SEND\nheader1:\n\n\0";
    let result = StompFrame::try_from(&frame[..]).unwrap();
    assert_eq!(
        result.headers,
        vec![("header1".to_string(), "".to_string())]
    );
}

#[test]
fn missing_terminator_after_declared_length_returns_error() {
    let frame = b"SEND\ncontent-length:4\n\nbody";
    let result = StompFrame::try_from(&frame[..]);
    assert!(matches!(result, Err(StompFrameError::SyntaxError(..))));
}

#[test]
fn syntax_error_payload_replaces_invalid_text() {
    let frame = b"n\xffonsense\n\n\0";
    let result = StompFrame::try_from(&frame[..]);
    match result {
        Err(StompFrameError::SyntaxError(at)) => {
            assert_eq!(at, "n\u{FFFD}onsense\n\n\u{0}");
        },
        _ => panic!("expected a syntax error"),
    }
}

#[test]
fn connect_and_connected_tokens_are_distinguished() {
    let c = StompFrame::try_from(&b"CONNECT\n\n\0"[..]).unwrap();
    assert_eq!(c.cmd, StompCommand::CONNECT);
    let cd = StompFrame::try_from(&b"CONNECTED\n\n\0"[..]).unwrap();
    assert_eq!(cd.cmd, StompCommand::CONNECTED);
    let x = StompFrame::try_from(&b"CONNECTEDX\n\n\0"[..]);
    assert!(matches!(x, Err(StompFrameError::SyntaxError(..))));
}
