use octobacillus::machine::{Machine, State, Step};
use octobacillus::msg::{AuthMessageType, Outcome, Request, Response};
use octobacillus::session::run_session;
use octobacillus::userfile::parse_username_config;

fn prompt(kind: AuthMessageType, text: &str) -> Response {
    Response::AuthMessage { auth_message_type: kind, auth_message: text.to_string() }
}

fn attempt(replies: Vec<Response>) -> (Outcome, Vec<Request>) {
    run_session(
        "alice".to_string(),
        "secret".to_string(),
        vec!["shell".to_string()],
        &replies,
    )
}

#[test]
fn full_login_flow_succeeds() {
    let (outcome, sent) = attempt(vec![
        prompt(AuthMessageType::Visible, "login:"),
        prompt(AuthMessageType::Secret, "Password:"),
        Response::Success,
        Response::Success,
    ]);
    assert_eq!(outcome, Outcome::LoggedIn);
    assert_eq!(
        sent,
        vec![
            Request::CreateSession { username: "alice".to_string() },
            Request::PostAuthMessageResponse { response: Some("alice".to_string()) },
            Request::PostAuthMessageResponse { response: Some("secret".to_string()) },
            Request::StartSession { cmd: vec!["shell".to_string()], env: vec![] },
        ]
    );
}

#[test]
fn launch_failure_reports_auth_failed_and_cancels() {
    let (outcome, sent) = attempt(vec![
        prompt(AuthMessageType::Visible, "login:"),
        prompt(AuthMessageType::Secret, "Password:"),
        Response::Success,
        Response::Error {
            error_type: "error".to_string(),
            description: "launch failed".to_string(),
        },
    ]);
    assert_eq!(outcome, Outcome::AuthFailed { message: "launch failed".to_string() });
    assert_eq!(sent.last(), Some(&Request::CancelSession));
    assert_eq!(
        sent,
        vec![
            Request::CreateSession { username: "alice".to_string() },
            Request::PostAuthMessageResponse { response: Some("alice".to_string()) },
            Request::PostAuthMessageResponse { response: Some("secret".to_string()) },
            Request::StartSession { cmd: vec!["shell".to_string()], env: vec![] },
            Request::CancelSession,
        ]
    );
}

#[test]
fn immediate_error_cancels_without_further_requests() {
    let (outcome, sent) = attempt(vec![Response::Error {
        error_type: "error".to_string(),
        description: "unknown user".to_string(),
    }]);
    assert_eq!(outcome, Outcome::AuthFailed { message: "unknown user".to_string() });
    assert_eq!(
        sent,
        vec![
            Request::CreateSession { username: "alice".to_string() },
            Request::CancelSession,
        ]
    );
    assert!(sent.iter().all(|r| !matches!(r, Request::PostAuthMessageResponse { .. })));
    assert!(sent.iter().all(|r| !matches!(r, Request::StartSession { .. })));
}

#[test]
fn dropped_connection_is_a_transport_error() {
    let (outcome, sent) = attempt(vec![prompt(AuthMessageType::Visible, "login:")]);
    assert!(matches!(outcome, Outcome::TransportError { .. }));
    assert_eq!(sent.len(), 2);
    let (outcome_empty, sent_empty) = attempt(vec![]);
    assert!(matches!(outcome_empty, Outcome::TransportError { .. }));
    assert_eq!(
        sent_empty,
        vec![Request::CreateSession { username: "alice".to_string() }]
    );
}

#[test]
fn info_and_error_prompts_get_empty_replies() {
    let (outcome, sent) = attempt(vec![
        prompt(AuthMessageType::Info, "maintenance at noon"),
        prompt(AuthMessageType::Error, "previous attempt failed"),
        prompt(AuthMessageType::Secret, "Password:"),
        Response::Success,
        Response::Success,
    ]);
    assert_eq!(outcome, Outcome::LoggedIn);
    assert_eq!(sent[1], Request::PostAuthMessageResponse { response: None });
    assert_eq!(sent[2], Request::PostAuthMessageResponse { response: None });
    assert_eq!(
        sent[3],
        Request::PostAuthMessageResponse { response: Some("secret".to_string()) }
    );
}

#[test]
fn prompts_are_answered_by_kind_in_any_order() {
    let (outcome, sent) = attempt(vec![
        prompt(AuthMessageType::Secret, "Password first:"),
        prompt(AuthMessageType::Visible, "Now the login:"),
        prompt(AuthMessageType::Secret, "Password again:"),
        Response::Success,
        Response::Success,
    ]);
    assert_eq!(outcome, Outcome::LoggedIn);
    assert_eq!(
        sent[1..4].to_vec(),
        vec![
            Request::PostAuthMessageResponse { response: Some("secret".to_string()) },
            Request::PostAuthMessageResponse { response: Some("alice".to_string()) },
            Request::PostAuthMessageResponse { response: Some("secret".to_string()) },
        ]
    );
}

#[test]
fn exactly_one_start_session_per_successful_run() {
    let (outcome, sent) = attempt(vec![
        prompt(AuthMessageType::Secret, "Password:"),
        Response::Success,
        prompt(AuthMessageType::Info, "greeting while starting"),
        Response::Success,
    ]);
    assert_eq!(outcome, Outcome::LoggedIn);
    let starts = sent
        .iter()
        .filter(|r| matches!(r, Request::StartSession { .. }))
        .count();
    assert_eq!(starts, 1);
}

#[test]
fn machine_walks_the_expected_states() {
    let mut m = Machine::new(
        "alice".to_string(),
        "secret".to_string(),
        vec!["shell".to_string()],
    );
    assert_eq!(m.state, State::Init);
    let first = m.start();
    assert_eq!(first, Request::CreateSession { username: "alice".to_string() });
    assert_eq!(m.state, State::AwaitingCreateAck);
    assert!(!m.is_terminal());

    let step = m.on_response(&prompt(AuthMessageType::Secret, "Password:"));
    match step {
        Step::Continue(req) => {
            assert_eq!(
                req,
                Request::PostAuthMessageResponse { response: Some("secret".to_string()) }
            );
        }
        _ => panic!("expected a request to send"),
    }
    assert_eq!(m.state, State::AwaitingAuthOrStart);

    let step = m.on_response(&Response::Success);
    match step {
        Step::Continue(req) => assert!(matches!(req, Request::StartSession { .. })),
        _ => panic!("expected StartSession"),
    }
    assert_eq!(m.state, State::AwaitingSessionStart);
    assert!(m.started);

    let step = m.on_response(&Response::Success);
    assert!(matches!(step, Step::Finished));
    assert_eq!(m.state, State::Success);
    assert!(m.is_terminal());
}

#[test]
fn second_success_is_terminal_even_after_many_prompts() {
    let mut m = Machine::new("a".to_string(), "b".to_string(), vec!["c".to_string()]);
    let _ = m.start();
    for _ in 0..5 {
        let _ = m.on_response(&prompt(AuthMessageType::Info, "..."));
    }
    let _ = m.on_response(&Response::Success);
    for _ in 0..3 {
        let _ = m.on_response(&prompt(AuthMessageType::Secret, "pin:"));
    }
    let step = m.on_response(&Response::Success);
    assert!(matches!(step, Step::Finished));
    assert_eq!(m.state, State::Success);
}

#[test]
fn error_rejects_in_every_awaiting_state() {
    let error = Response::Error {
        error_type: "auth_error".to_string(),
        description: "no".to_string(),
    };
    for warmup in 0..3 {
        let mut m = Machine::new("a".to_string(), "b".to_string(), vec![]);
        let _ = m.start();
        for _ in 0..warmup {
            let _ = m.on_response(&prompt(AuthMessageType::Secret, "pw:"));
        }
        let step = m.on_response(&error);
        match step {
            Step::Rejected(req, message) => {
                assert_eq!(req, Request::CancelSession);
                assert_eq!(message, "no");
            }
            _ => panic!("expected rejection"),
        }
        assert_eq!(m.state, State::Failed);
        assert!(m.is_terminal());
    }
}

#[test]
fn transport_failure_is_terminal() {
    let mut m = Machine::new("a".to_string(), "b".to_string(), vec![]);
    let _ = m.start();
    m.on_transport_failure();
    assert_eq!(m.state, State::Failed);
    assert!(m.is_terminal());
}

#[test]
fn userfile_picks_first_matching_line() {
    assert_eq!(parse_username_config("name = alice\n"), Some("alice".to_string()));
    assert_eq!(
        parse_username_config("# greeter config\nname=bob\nname=carol\n"),
        Some("bob".to_string())
    );
    assert_eq!(parse_username_config("name=dave"), Some("dave".to_string()));
}

#[test]
fn userfile_takes_text_between_first_and_second_equals() {
    assert_eq!(parse_username_config("name = erin = extra\n"), Some("erin".to_string()));
    assert_eq!(parse_username_config("name1=frank=2\n"), Some("frank".to_string()));
}

#[test]
fn userfile_trims_whitespace_and_line_endings() {
    assert_eq!(parse_username_config("name =\tgrace  \r\n"), Some("grace".to_string()));
    assert_eq!(parse_username_config("name=\n"), Some(String::new()));
}

#[test]
fn userfile_skips_lines_without_equals() {
    assert_eq!(parse_username_config("name\nname=heidi\n"), Some("heidi".to_string()));
}

#[test]
fn userfile_without_a_name_line_yields_nothing() {
    assert_eq!(parse_username_config(""), None);
    assert_eq!(parse_username_config("user=ivan\n"), None);
    assert_eq!(parse_username_config("na me = judy\n"), None);
}
