//! Protocol messages exchanged with the greeter daemon, and the outcome of a
//! login attempt, together with their mathematical views.

use vstd::prelude::*;

verus! {

/// The kind of an authentication prompt, telling the greeter what reply the
/// daemon expects: the username (echoed while typing), the password (hidden),
/// or no reply at all for informational and error texts.
#[derive(Clone, Copy, Debug, PartialEq, Eq, Structural)]
pub enum AuthMessageType {
    Visible,
    Secret,
    Info,
    Error,
}

/// A request from the greeter to the daemon.
#[derive(Clone, Debug, PartialEq, Eq)]
pub enum Request {
    CreateSession { username: String },
    PostAuthMessageResponse { response: Option<String> },
    StartSession { cmd: Vec<String>, env: Vec<String> },
    CancelSession,
}

/// A response from the daemon to the greeter.
#[derive(Clone, Debug, PartialEq, Eq)]
pub enum Response {
    Success,
    Error { error_type: String, description: String },
    AuthMessage { auth_message_type: AuthMessageType, auth_message: String },
}

/// The terminal result of one login attempt.
#[derive(Clone, Debug, PartialEq, Eq)]
pub enum Outcome {
    LoggedIn,
    AuthFailed { message: String },
    TransportError { message: String },
}

/// Mathematical view of a [`Request`].
pub enum RequestV {
    CreateSession { username: Seq<char> },
    PostAuthMessageResponse { response: Option<Seq<char>> },
    StartSession { cmd: Seq<Seq<char>>, env: Seq<Seq<char>> },
    CancelSession,
}

/// Mathematical view of a [`Response`].
pub enum ResponseV {
    Success,
    Error { error_type: Seq<char>, description: Seq<char> },
    AuthMessage { auth_message_type: AuthMessageType, auth_message: Seq<char> },
}

/// Mathematical view of an [`Outcome`].
pub enum OutcomeV {
    LoggedIn,
    AuthFailed { message: Seq<char> },
    TransportError { message: Seq<char> },
}

impl View for Request {
    type V = RequestV;

    open spec fn view(&self) -> RequestV {
        match self {
            Request::CreateSession { username } => RequestV::CreateSession {
                username: username@,
            },
            Request::PostAuthMessageResponse { response } => RequestV::PostAuthMessageResponse {
                response: match response {
                    Some(s) => Some(s@),
                    None => None,
                },
            },
            Request::StartSession { cmd, env } => RequestV::StartSession {
                cmd: cmd.deep_view(),
                env: env.deep_view(),
            },
            Request::CancelSession => RequestV::CancelSession,
        }
    }
}

impl View for Response {
    type V = ResponseV;

    open spec fn view(&self) -> ResponseV {
        match self {
            Response::Success => ResponseV::Success,
            Response::Error { error_type, description } => ResponseV::Error {
                error_type: error_type@,
                description: description@,
            },
            Response::AuthMessage { auth_message_type, auth_message } => ResponseV::AuthMessage {
                auth_message_type: *auth_message_type,
                auth_message: auth_message@,
            },
        }
    }
}

impl View for Outcome {
    type V = OutcomeV;

    open spec fn view(&self) -> OutcomeV {
        match self {
            Outcome::LoggedIn => OutcomeV::LoggedIn,
            Outcome::AuthFailed { message } => OutcomeV::AuthFailed { message: message@ },
            Outcome::TransportError { message } => OutcomeV::TransportError { message: message@ },
        }
    }
}

impl DeepView for Request {
    type V = RequestV;

    open spec fn deep_view(&self) -> RequestV {
        self.view()
    }
}

impl DeepView for Response {
    type V = ResponseV;

    open spec fn deep_view(&self) -> ResponseV {
        self.view()
    }
}

} // verus!
