//! The session state machine: one login negotiation, from `CreateSession` to
//! a terminal state.
//!
//! The machine is pure: it consumes decoded responses and says what to send
//! next. The surrounding controller performs the sends and receives and feeds
//! the results back in.

use vstd::prelude::*;
use crate::msg::{AuthMessageType, Request, RequestV, Response, ResponseV};

verus! {

/// The states of one login negotiation.
#[derive(Clone, Copy, Debug, PartialEq, Eq, Structural)]
pub enum State {
    /// Nothing sent yet.
    Init,
    /// `CreateSession` sent; its acknowledgement is outstanding.
    AwaitingCreateAck,
    /// A `PostAuthMessageResponse` sent; another prompt or a `Success` may
    /// follow.
    AwaitingAuthOrStart,
    /// Authentication succeeded and `StartSession` was sent.
    AwaitingSessionStart,
    /// Terminal: the requested session launched.
    Success,
    /// Terminal: the daemon reported an error, or the transport failed.
    Failed,
    /// Terminal: the attempt was abandoned with the daemon's consent. An
    /// error leads to `Failed` instead, so the negotiation itself never rests
    /// here.
    Cancelled,
}

/// Whether the machine waits for a response from the daemon.
pub open spec fn is_awaiting(st: State) -> bool {
    st is AwaitingCreateAck || st is AwaitingAuthOrStart || st is AwaitingSessionStart
}

/// One login attempt's state machine, with the credentials it answers
/// prompts from and the command it asks the daemon to launch.
pub struct Machine {
    pub state: State,
    pub started: bool,
    pub username: String,
    pub password: String,
    pub cmd: Vec<String>,
}

/// Mathematical view of a [`Machine`].
pub struct MachineV {
    pub state: State,
    pub started: bool,
    pub username: Seq<char>,
    pub password: Seq<char>,
    pub cmd: Seq<Seq<char>>,
}

impl View for Machine {
    type V = MachineV;

    open spec fn view(&self) -> MachineV {
        MachineV {
            state: self.state,
            started: self.started,
            username: self.username@,
            password: self.password@,
            cmd: self.cmd.deep_view(),
        }
    }
}

/// What the controller must do after the machine consumed a response.
pub enum Step {
    /// Send this request and await the next response.
    Continue(Request),
    /// Terminal success: the session launched; nothing more to send.
    Finished,
    /// Terminal failure, with the daemon's description: best-effort send the
    /// given `CancelSession`, then discard the connection.
    Rejected(Request, String),
}

/// Mathematical view of a [`Step`].
pub enum StepV {
    Continue(RequestV),
    Finished,
    Rejected(RequestV, Seq<char>),
}

impl View for Step {
    type V = StepV;

    open spec fn view(&self) -> StepV {
        match self {
            Step::Continue(req) => StepV::Continue(req@),
            Step::Finished => StepV::Finished,
            Step::Rejected(req, d) => StepV::Rejected(req@, d@),
        }
    }
}

/// The reply owed to a prompt of the given kind: the username echoed back for
/// a visible prompt, the password for a secret one, nothing otherwise.
pub open spec fn spec_reply(
    kind: AuthMessageType,
    username: Seq<char>,
    password: Seq<char>,
) -> Option<Seq<char>> {
    match kind {
        AuthMessageType::Visible => Some(username),
        AuthMessageType::Secret => Some(password),
        AuthMessageType::Info => None,
        AuthMessageType::Error => None,
    }
}

/// The machine's transition on one received response.
pub open spec fn spec_transition(m: MachineV, r: ResponseV) -> (MachineV, StepV) {
    match r {
        ResponseV::AuthMessage { auth_message_type, auth_message } => (
            MachineV {
                state: if m.state is AwaitingCreateAck {
                    State::AwaitingAuthOrStart
                } else {
                    m.state
                },
                ..m
            },
            StepV::Continue(
                RequestV::PostAuthMessageResponse {
                    response: spec_reply(auth_message_type, m.username, m.password),
                },
            ),
        ),
        ResponseV::Success => if m.started {
            (MachineV { state: State::Success, ..m }, StepV::Finished)
        } else {
            (
                MachineV { state: State::AwaitingSessionStart, started: true, ..m },
                StepV::Continue(RequestV::StartSession { cmd: m.cmd, env: Seq::empty() }),
            )
        },
        ResponseV::Error { error_type, description } => (
            MachineV { state: State::Failed, ..m },
            StepV::Rejected(RequestV::CancelSession, description),
        ),
    }
}

impl Machine {
    /// A fresh machine holding the attempt's credentials and launch command.
    pub fn new(username: String, password: String, cmd: Vec<String>) -> (m: Machine)
        ensures
            m@ == (MachineV {
                state: State::Init,
                started: false,
                username: username@,
                password: password@,
                cmd: cmd.deep_view(),
            }),
    {
        Machine { state: State::Init, started: false, username, password, cmd }
    }

    /// Opens the attempt: yields the `CreateSession` request to send.
    pub fn start(&mut self) -> (req: Request)
        requires
            old(self)@.state is Init,
        ensures
            req@ == (RequestV::CreateSession { username: old(self)@.username }),
            final(self)@ == (MachineV { state: State::AwaitingCreateAck, ..old(self)@ }),
    {
        self.state = State::AwaitingCreateAck;
        Request::CreateSession { username: self.username.clone() }
    }

    /// Consumes one daemon response and says what to do next.
    pub fn on_response(&mut self, resp: &Response) -> (step: Step)
        requires
            is_awaiting(old(self)@.state),
        ensures
            (final(self)@, step@) == spec_transition(old(self)@, resp@),
    {
        match resp {
            Response::AuthMessage { auth_message_type, auth_message: _ } => {
                if self.state == State::AwaitingCreateAck {
                    self.state = State::AwaitingAuthOrStart;
                }
                let reply: Option<String> = match auth_message_type {
                    AuthMessageType::Visible => Some(self.username.clone()),
                    AuthMessageType::Secret => Some(self.password.clone()),
                    AuthMessageType::Info => None,
                    AuthMessageType::Error => None,
                };
                Step::Continue(Request::PostAuthMessageResponse { response: reply })
            },
            Response::Success => {
                if self.started {
                    self.state = State::Success;
                    Step::Finished
                } else {
                    self.started = true;
                    self.state = State::AwaitingSessionStart;
                    let cmd = self.cmd.clone();
                    let env: Vec<String> = Vec::new();
                    proof {
                        assert(cmd.deep_view() =~= self.cmd.deep_view());
                        assert(env.deep_view() =~= Seq::<Seq<char>>::empty());
                    }
                    Step::Continue(Request::StartSession { cmd, env })
                }
            },
            Response::Error { error_type: _, description } => {
                self.state = State::Failed;
                Step::Rejected(Request::CancelSession, description.clone())
            },
        }
    }

    /// Records a transport or codec failure: the attempt is over and nothing
    /// more is sent on the connection.
    pub fn on_transport_failure(&mut self)
        ensures
            final(self)@ == (MachineV { state: State::Failed, ..old(self)@ }),
    {
        self.state = State::Failed;
    }

    /// Whether the machine rests in a terminal state.
    pub fn is_terminal(&self) -> (r: bool)
        ensures
            r == (self@.state is Success || self@.state is Failed || self@.state is Cancelled),
    {
        self.state == State::Success || self.state == State::Failed || self.state
            == State::Cancelled
    }
}

/// For every prompt, in every state, the reply sent is exactly the one owed
/// to the prompt's kind — independent of the order or number of prompts —
/// and the credentials and progress flag are untouched.
pub proof fn lemma_prompt_reply(m: MachineV, kind: AuthMessageType, text: Seq<char>)
    ensures
        spec_transition(
            m,
            ResponseV::AuthMessage { auth_message_type: kind, auth_message: text },
        ).1 == StepV::Continue(
            (RequestV::PostAuthMessageResponse {
                response: spec_reply(kind, m.username, m.password),
            }),
        ),
        spec_transition(
            m,
            ResponseV::AuthMessage { auth_message_type: kind, auth_message: text },
        ).0.username == m.username,
        spec_transition(
            m,
            ResponseV::AuthMessage { auth_message_type: kind, auth_message: text },
        ).0.password == m.password,
        spec_transition(
            m,
            ResponseV::AuthMessage { auth_message_type: kind, auth_message: text },
        ).0.started == m.started,
{
}

/// A `Success` arriving when `started` already holds always makes the
/// machine terminally successful, no matter what state preceded it.
pub proof fn lemma_second_success(m: MachineV)
    requires
        m.started,
    ensures
        spec_transition(m, ResponseV::Success).0.state is Success,
        spec_transition(m, ResponseV::Success).1 is Finished,
{
}

/// An `Error` response, in any state, makes the machine terminally `Failed`
/// and asks for a best-effort `CancelSession` carrying the daemon's
/// description.
pub proof fn lemma_error_rejects(m: MachineV, error_type: Seq<char>, description: Seq<char>)
    ensures
        spec_transition(m, (ResponseV::Error { error_type, description })).0.state is Failed,
        spec_transition(m, (ResponseV::Error { error_type, description })).1 == StepV::Rejected(
            RequestV::CancelSession,
            description,
        ),
{
}

/// `StartSession` is sent exactly on a `Success` that arrives while
/// `started` is still false; that step sets `started`, and `started` never
/// falls back.
pub proof fn lemma_start_session_once(m: MachineV, r: ResponseV)
    ensures
        (spec_transition(m, r).1 matches StepV::Continue(req) && req is StartSession) <==> (r
            is Success && !m.started),
        spec_transition(m, r).0.started == (m.started || r is Success),
{
}

} // verus!
