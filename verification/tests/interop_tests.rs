//! The wire bytes must match the daemon's own codec bit for bit: frames
//! produced here decode there, and frames produced there decode here.

use greetd_ipc::codec::SyncCodec;
use octobacillus::codec::{encode_request_frame, encode_response_frame};
use octobacillus::decode::{decode_request_payload, decode_response_payload};
use octobacillus::frame::parse_frame_len;
use octobacillus::msg::{AuthMessageType, Request, Response};

fn reference_request_bytes(r: &greetd_ipc::Request) -> Vec<u8> {
    let mut buf: Vec<u8> = Vec::new();
    r.write_to(&mut buf).unwrap();
    buf
}

fn reference_response_bytes(r: &greetd_ipc::Response) -> Vec<u8> {
    let mut buf: Vec<u8> = Vec::new();
    r.write_to(&mut buf).unwrap();
    buf
}

fn split_frame(frame: &[u8]) -> Vec<u8> {
    let len = parse_frame_len(&frame[..4].to_vec()) as usize;
    assert_eq!(frame.len(), 4 + len);
    frame[4..].to_vec()
}

#[test]
fn request_frames_match_reference_codec() {
    let cases: Vec<(Request, greetd_ipc::Request)> = vec![
        (
            Request::CreateSession { username: "alice".to_string() },
            greetd_ipc::Request::CreateSession { username: "alice".to_string() },
        ),
        (
            Request::CreateSession { username: "weird \"user\"\\name\n\tü€".to_string() },
            greetd_ipc::Request::CreateSession {
                username: "weird \"user\"\\name\n\tü€".to_string(),
            },
        ),
        (
            Request::PostAuthMessageResponse { response: None },
            greetd_ipc::Request::PostAuthMessageResponse { response: None },
        ),
        (
            Request::PostAuthMessageResponse { response: Some("s3cret\u{1}!".to_string()) },
            greetd_ipc::Request::PostAuthMessageResponse {
                response: Some("s3cret\u{1}!".to_string()),
            },
        ),
        (
            Request::StartSession { cmd: vec!["Hyprland".to_string()], env: vec![] },
            greetd_ipc::Request::StartSession { cmd: vec!["Hyprland".to_string()], env: vec![] },
        ),
        (
            Request::StartSession {
                cmd: vec!["sway".to_string(), "--config".to_string()],
                env: vec!["XDG_SESSION=wayland".to_string(), "L=C".to_string()],
            },
            greetd_ipc::Request::StartSession {
                cmd: vec!["sway".to_string(), "--config".to_string()],
                env: vec!["XDG_SESSION=wayland".to_string(), "L=C".to_string()],
            },
        ),
        (Request::CancelSession, greetd_ipc::Request::CancelSession),
    ];
    for (ours, theirs) in cases {
        let our_frame = encode_request_frame(&ours).unwrap();
        let reference = reference_request_bytes(&theirs);
        assert_eq!(our_frame, reference, "frame mismatch for {ours:?}");
    }
}

#[test]
fn reference_request_frames_decode_here() {
    let theirs = greetd_ipc::Request::CreateSession { username: "Zoë".to_string() };
    let payload = split_frame(&reference_request_bytes(&theirs));
    assert_eq!(
        decode_request_payload(payload),
        Ok(Request::CreateSession { username: "Zoë".to_string() })
    );
}

#[test]
fn reference_response_frames_decode_here() {
    let cases: Vec<(greetd_ipc::Response, Response)> = vec![
        (greetd_ipc::Response::Success, Response::Success),
        (
            greetd_ipc::Response::Error {
                error_type: greetd_ipc::ErrorType::AuthError,
                description: "login failed: \"bad\" password\n".to_string(),
            },
            Response::Error {
                error_type: "auth_error".to_string(),
                description: "login failed: \"bad\" password\n".to_string(),
            },
        ),
        (
            greetd_ipc::Response::Error {
                error_type: greetd_ipc::ErrorType::Error,
                description: "session is already running".to_string(),
            },
            Response::Error {
                error_type: "error".to_string(),
                description: "session is already running".to_string(),
            },
        ),
        (
            greetd_ipc::Response::AuthMessage {
                auth_message_type: greetd_ipc::AuthMessageType::Visible,
                auth_message: "login:".to_string(),
            },
            Response::AuthMessage {
                auth_message_type: AuthMessageType::Visible,
                auth_message: "login:".to_string(),
            },
        ),
        (
            greetd_ipc::Response::AuthMessage {
                auth_message_type: greetd_ipc::AuthMessageType::Secret,
                auth_message: "Mot de passe :".to_string(),
            },
            Response::AuthMessage {
                auth_message_type: AuthMessageType::Secret,
                auth_message: "Mot de passe :".to_string(),
            },
        ),
        (
            greetd_ipc::Response::AuthMessage {
                auth_message_type: greetd_ipc::AuthMessageType::Info,
                auth_message: "insert token".to_string(),
            },
            Response::AuthMessage {
                auth_message_type: AuthMessageType::Info,
                auth_message: "insert token".to_string(),
            },
        ),
        (
            greetd_ipc::Response::AuthMessage {
                auth_message_type: greetd_ipc::AuthMessageType::Error,
                auth_message: "try again".to_string(),
            },
            Response::AuthMessage {
                auth_message_type: AuthMessageType::Error,
                auth_message: "try again".to_string(),
            },
        ),
    ];
    for (theirs, expected) in cases {
        let payload = split_frame(&reference_response_bytes(&theirs));
        assert_eq!(decode_response_payload(payload), Ok(expected));
    }
}

#[test]
fn our_response_frames_decode_in_reference_codec() {
    let ours = Response::AuthMessage {
        auth_message_type: AuthMessageType::Secret,
        auth_message: "Password:".to_string(),
    };
    let frame = encode_response_frame(&ours).unwrap();
    let decoded = greetd_ipc::Response::read_from(&mut frame.as_slice()).unwrap();
    match decoded {
        greetd_ipc::Response::AuthMessage { auth_message_type, auth_message } => {
            assert!(matches!(auth_message_type, greetd_ipc::AuthMessageType::Secret));
            assert_eq!(auth_message, "Password:");
        }
        other => panic!("decoded to {other:?}"),
    }
}

#[test]
fn our_request_frames_decode_in_reference_codec() {
    let ours = Request::StartSession { cmd: vec!["Hyprland".to_string()], env: vec![] };
    let frame = encode_request_frame(&ours).unwrap();
    let decoded = greetd_ipc::Request::read_from(&mut frame.as_slice()).unwrap();
    match decoded {
        greetd_ipc::Request::StartSession { cmd, env } => {
            assert_eq!(cmd, vec!["Hyprland".to_string()]);
            assert!(env.is_empty());
        }
        other => panic!("decoded to {other:?}"),
    }
}
