use octobacillus::codec::{
    encode_request, encode_request_frame, encode_response, encode_response_frame, CodecError,
};
use octobacillus::decode::{
    decode_request, decode_request_payload, decode_response, decode_response_payload,
};
use octobacillus::frame::{frame_payload, parse_frame_len};
use octobacillus::msg::{AuthMessageType, Request, Response};

fn request_round_trip(r: Request) {
    let text = encode_request(&r);
    assert_eq!(decode_request(&text), Ok(r.clone()));
    let frame = encode_request_frame(&r).unwrap();
    let payload = frame[4..].to_vec();
    assert_eq!(parse_frame_len(&frame[..4].to_vec()) as usize, payload.len());
    assert_eq!(decode_request_payload(payload), Ok(r));
}

fn response_round_trip(r: Response) {
    let text = encode_response(&r);
    assert_eq!(decode_response(&text), Ok(r.clone()));
    let frame = encode_response_frame(&r).unwrap();
    let payload = frame[4..].to_vec();
    assert_eq!(parse_frame_len(&frame[..4].to_vec()) as usize, payload.len());
    assert_eq!(decode_response_payload(payload), Ok(r));
}

#[test]
fn round_trip_create_session() {
    request_round_trip(Request::CreateSession { username: "alice".to_string() });
}

#[test]
fn round_trip_post_auth_message_response_none() {
    request_round_trip(Request::PostAuthMessageResponse { response: None });
}

#[test]
fn round_trip_post_auth_message_response_some() {
    request_round_trip(Request::PostAuthMessageResponse { response: Some("hunter2".to_string()) });
}

#[test]
fn round_trip_post_auth_message_response_empty_string() {
    request_round_trip(Request::PostAuthMessageResponse { response: Some(String::new()) });
}

#[test]
fn round_trip_start_session() {
    request_round_trip(Request::StartSession {
        cmd: vec!["Hyprland".to_string()],
        env: vec![],
    });
}

#[test]
fn round_trip_start_session_many() {
    request_round_trip(Request::StartSession {
        cmd: vec!["sway".to_string(), "--debug".to_string(), String::new()],
        env: vec!["A=1".to_string(), "B=two words".to_string()],
    });
}

#[test]
fn round_trip_cancel_session() {
    request_round_trip(Request::CancelSession);
}

#[test]
fn round_trip_success() {
    response_round_trip(Response::Success);
}

#[test]
fn round_trip_error() {
    response_round_trip(Response::Error {
        error_type: "auth_error".to_string(),
        description: "authentication failed".to_string(),
    });
}

#[test]
fn round_trip_auth_message_all_kinds() {
    for kind in [
        AuthMessageType::Visible,
        AuthMessageType::Secret,
        AuthMessageType::Info,
        AuthMessageType::Error,
    ] {
        response_round_trip(Response::AuthMessage {
            auth_message_type: kind,
            auth_message: "Password:".to_string(),
        });
    }
}

#[test]
fn round_trip_with_escapes() {
    request_round_trip(Request::CreateSession {
        username: "a\"b\\c\nd\te\rf\u{8}g\u{c}h\u{1}i\u{1f}j".to_string(),
    });
    response_round_trip(Response::Error {
        error_type: "error".to_string(),
        description: "line one\nline \"two\" \\ three\u{7}".to_string(),
    });
}

#[test]
fn round_trip_non_ascii() {
    request_round_trip(Request::CreateSession { username: "Zoë-ü€🎉".to_string() });
    response_round_trip(Response::AuthMessage {
        auth_message_type: AuthMessageType::Info,
        auth_message: "héllo wörld — 日本語".to_string(),
    });
}

#[test]
fn encoding_is_canonical_json() {
    assert_eq!(
        encode_request(&Request::CreateSession { username: "bob".to_string() }),
        "{\"type\":\"create_session\",\"username\":\"bob\"}"
    );
    assert_eq!(
        encode_request(&Request::PostAuthMessageResponse { response: None }),
        "{\"type\":\"post_auth_message_response\",\"response\":null}"
    );
    assert_eq!(
        encode_request(&Request::StartSession {
            cmd: vec!["shell".to_string()],
            env: vec![],
        }),
        "{\"type\":\"start_session\",\"cmd\":[\"shell\"],\"env\":[]}"
    );
    assert_eq!(encode_request(&Request::CancelSession), "{\"type\":\"cancel_session\"}");
    assert_eq!(encode_response(&Response::Success), "{\"type\":\"success\"}");
    assert_eq!(
        encode_response(&Response::AuthMessage {
            auth_message_type: AuthMessageType::Secret,
            auth_message: "Password:".to_string(),
        }),
        "{\"type\":\"auth_message\",\"auth_message_type\":\"secret\",\"auth_message\":\"Password:\"}"
    );
    assert_eq!(
        encode_request(&Request::CreateSession { username: "a\"b\u{1f}".to_string() }),
        "{\"type\":\"create_session\",\"username\":\"a\\\"b\\u001f\"}"
    );
}

#[test]
fn decode_rejects_malformed() {
    for text in [
        "",
        "{}",
        "{\"type\":\"success\"} ",
        " {\"type\":\"success\"}",
        "{\"type\":\"succes\"}",
        "{\"type\":\"auth_message\",\"auth_message_type\":\"loud\",\"auth_message\":\"x\"}",
        "{\"type\":\"error\",\"error_type\":\"e\",\"description\":\"unterminated}",
        "{\"type\":\"error\",\"description\":\"flipped\",\"error_type\":\"e\"}",
    ] {
        assert_eq!(decode_response(text), Err(CodecError::Malformed), "input: {text}");
    }
    for text in [
        "",
        "{\"type\":\"create_session\"}",
        "{\"type\":\"start_session\",\"cmd\":[\"a\",],\"env\":[]}",
        "{\"type\":\"start_session\",\"env\":[],\"cmd\":[]}",
        "{\"type\":\"post_auth_message_response\",\"response\":true}",
    ] {
        assert_eq!(decode_request(text), Err(CodecError::Malformed), "input: {text}");
    }
}

#[test]
fn decode_rejects_noncanonical_escapes() {
    // A liberal JSON parser would take these; the daemon never produces them.
    assert_eq!(
        decode_response("{\"type\":\"error\",\"error_type\":\"\\u0041\",\"description\":\"\"}"),
        Err(CodecError::Malformed)
    );
    assert_eq!(
        decode_response("{\"type\":\"error\",\"error_type\":\"\\u0009\",\"description\":\"\"}"),
        Err(CodecError::Malformed)
    );
    // The canonical spelling of the same control character is accepted.
    assert_eq!(
        decode_response("{\"type\":\"error\",\"error_type\":\"\\u0001\",\"description\":\"\\t\"}"),
        Ok(Response::Error {
            error_type: "\u{1}".to_string(),
            description: "\t".to_string(),
        })
    );
}

#[test]
fn decode_rejects_raw_control_characters() {
    assert_eq!(
        decode_response("{\"type\":\"error\",\"error_type\":\"a\nb\",\"description\":\"\"}"),
        Err(CodecError::Malformed)
    );
}

#[test]
fn decode_payload_rejects_invalid_utf8() {
    assert_eq!(decode_response_payload(vec![0xff, 0xfe, 0x20]), Err(CodecError::InvalidUtf8));
    assert_eq!(decode_request_payload(vec![0xc0, 0x80]), Err(CodecError::InvalidUtf8));
}

#[test]
fn frame_layout_is_little_endian_length_prefix() {
    let framed = frame_payload(&vec![9, 8, 7]);
    assert_eq!(framed, vec![3, 0, 0, 0, 9, 8, 7]);
    assert_eq!(parse_frame_len(&vec![0x10, 0x00, 0x00, 0x00]), 16);
    assert_eq!(parse_frame_len(&vec![0xef, 0xbe, 0xad, 0xde]), 0xdead_beef);
    let empty = frame_payload(&vec![]);
    assert_eq!(empty, vec![0, 0, 0, 0]);
    assert_eq!(parse_frame_len(&empty), 0);
}

#[test]
fn frame_of_encoded_request_starts_with_payload_length() {
    let frame = encode_request_frame(&Request::CancelSession).unwrap();
    let text = encode_request(&Request::CancelSession);
    assert_eq!(parse_frame_len(&frame[..4].to_vec()) as usize, text.len());
    assert_eq!(&frame[4..], text.as_bytes());
}
