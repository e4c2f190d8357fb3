//! The session controller's pure core: driving the state machine over a
//! sequence of daemon replies.
//!
//! The controller around it owns the connection; here the replies are taken
//! as given, so the whole negotiation — which requests go out, in which
//! order, and which outcome is reported — is itself verified. A reply
//! sequence that ends before a terminal step models a dropped connection.

use vstd::prelude::*;
use vstd::string::StringExecFns;
use crate::machine::{is_awaiting, spec_transition, Machine, MachineV, State, Step, StepV};
use crate::msg::{Outcome, OutcomeV, Request, RequestV, Response, ResponseV};

verus! {

/// The message reported when the daemon's reply stream ends early.
pub open spec fn spec_eof_message() -> Seq<char> {
    "connection closed by daemon"@
}

/// The requests sent in response to consumed replies, and the outcome, of a
/// run that starts with the machine awaiting its first response.
pub open spec fn spec_run(m: MachineV, replies: Seq<ResponseV>) -> (OutcomeV, Seq<RequestV>)
    decreases replies.len(),
{
    if replies.len() == 0 {
        (OutcomeV::TransportError { message: spec_eof_message() }, Seq::empty())
    } else {
        let (m2, step) = spec_transition(m, replies[0]);
        match step {
            StepV::Continue(req) => {
                let rec = spec_run(m2, replies.drop_first());
                (rec.0, seq![req] + rec.1)
            },
            StepV::Finished => (OutcomeV::LoggedIn, Seq::empty()),
            StepV::Rejected(creq, d) => (OutcomeV::AuthFailed { message: d }, seq![creq]),
        }
    }
}

/// The machine a fresh attempt rests in after `CreateSession` went out.
pub open spec fn spec_opened_machine(
    username: Seq<char>,
    password: Seq<char>,
    cmd: Seq<Seq<char>>,
) -> MachineV {
    MachineV { state: State::AwaitingCreateAck, started: false, username, password, cmd }
}

/// Drives one whole login attempt against a fixed sequence of daemon
/// replies: the pure core of the session controller. The transcript opens
/// with the `CreateSession` request; each consumed reply contributes the
/// request sent in response to it; replies after a terminal step are
/// ignored, and a stream that ends early is a dropped connection.
#[verifier::loop_isolation(false)]
pub fn run_session(
    username: String,
    password: String,
    cmd: Vec<String>,
    replies: &Vec<Response>,
) -> (r: (Outcome, Vec<Request>))
    ensures
        ({
            let m0 = spec_opened_machine(username@, password@, cmd.deep_view());
            let rec = spec_run(m0, replies.deep_view());
            r.0@ == rec.0 && r.1.deep_view() == seq![
                (RequestV::CreateSession { username: username@ }),
            ] + rec.1
        }),
{
    let ghost m0 = spec_opened_machine(username@, password@, cmd.deep_view());
    let ghost target = spec_run(m0, replies.deep_view());
    let ghost first = RequestV::CreateSession { username: username@ };
    let mut machine = Machine::new(username, password, cmd);
    let mut sent: Vec<Request> = Vec::new();
    let req0 = machine.start();
    sent.push(req0);
    let mut k: usize = 0;
    proof {
        assert(machine@ == m0);
        assert(replies.deep_view().skip(0) =~= replies.deep_view());
        assert(sent.deep_view() =~= seq![first]);
    }
    loop
        invariant
            k <= replies@.len(),
            replies@.len() == replies.deep_view().len(),
            is_awaiting(machine@.state),
            target == spec_run(m0, replies.deep_view()),
            spec_run(machine@, replies.deep_view().skip(k as int)).0 == target.0,
            sent.deep_view() + spec_run(machine@, replies.deep_view().skip(k as int)).1 == seq![
                first,
            ] + target.1,
        decreases replies@.len() - k,
    {
        let ghost rest = replies.deep_view().skip(k as int);
        if k == replies.len() {
            proof {
                assert(rest.len() == 0);
                assert(sent.deep_view() + Seq::<RequestV>::empty() =~= sent.deep_view());
            }
            let message = String::from_str("connection closed by daemon");
            return (Outcome::TransportError { message }, sent);
        }
        let ghost mpre = machine@;
        let step = machine.on_response(&replies[k]);
        proof {
            assert(replies.deep_view()[k as int] == replies[k as int]@);
            assert(rest[0] == replies.deep_view()[k as int]);
            assert(rest.drop_first() =~= replies.deep_view().skip(k as int + 1));
            assert((machine@, step@) == spec_transition(mpre, rest[0]));
        }
        match step {
            Step::Continue(req) => {
                let ghost sent0 = sent.deep_view();
                let ghost rec = spec_run(machine@, replies.deep_view().skip(k as int + 1));
                sent.push(req);
                proof {
                    assert(spec_run(mpre, rest) == (rec.0, seq![req@] + rec.1));
                    assert(sent.deep_view() =~= sent0 + seq![req@]);
                    assert((sent0 + seq![req@]) + rec.1 =~= sent0 + (seq![req@] + rec.1));
                    assert(machine@.state is AwaitingAuthOrStart || machine@.state
                        == mpre.state || machine@.state is AwaitingSessionStart);
                }
                k = k + 1;
            },
            Step::Finished => {
                proof {
                    assert(spec_run(mpre, rest) == (
                        OutcomeV::LoggedIn,
                        Seq::<RequestV>::empty(),
                    ));
                    assert(sent.deep_view() + Seq::<RequestV>::empty() =~= sent.deep_view());
                }
                return (Outcome::LoggedIn, sent);
            },
            Step::Rejected(creq, message) => {
                let ghost sent0 = sent.deep_view();
                proof {
                    assert(spec_run(mpre, rest) == (
                        OutcomeV::AuthFailed { message: message@ },
                        seq![creq@],
                    ));
                }
                sent.push(creq);
                proof {
                    assert(sent.deep_view() =~= sent0 + seq![creq@]);
                }
                return (Outcome::AuthFailed { message }, sent);
            },
        }
    }
}

/// How many `StartSession` requests a transcript holds.
pub open spec fn count_start_sessions(reqs: Seq<RequestV>) -> int
    decreases reqs.len(),
{
    if reqs.len() == 0 {
        0
    } else {
        (if reqs[0] is StartSession {
            1int
        } else {
            0int
        }) + count_start_sessions(reqs.drop_first())
    }
}

proof fn lemma_count_nonneg(reqs: Seq<RequestV>)
    ensures
        count_start_sessions(reqs) >= 0,
    decreases reqs.len(),
{
    if reqs.len() > 0 {
        lemma_count_nonneg(reqs.drop_first());
    }
}

proof fn lemma_count_zero_no_start(reqs: Seq<RequestV>)
    requires
        count_start_sessions(reqs) == 0,
    ensures
        forall|i: int| 0 <= i < reqs.len() ==> !(reqs[i] is StartSession),
    decreases reqs.len(),
{
    if reqs.len() > 0 {
        lemma_count_nonneg(reqs.drop_first());
        lemma_count_zero_no_start(reqs.drop_first());
        assert forall|i: int| 0 <= i < reqs.len() implies !(reqs[i] is StartSession) by {
            if i > 0 {
                assert(reqs.drop_first()[i - 1] == reqs[i]);
            }
        }
    }
}

/// A run answers each consumed reply with at most one request: the
/// transcript is never longer than the reply sequence.
pub proof fn lemma_run_transcript_len(m: MachineV, replies: Seq<ResponseV>)
    ensures
        spec_run(m, replies).1.len() <= replies.len(),
    decreases replies.len(),
{
    if replies.len() == 0 {
    } else {
        let (m2, step) = spec_transition(m, replies[0]);
        match step {
            StepV::Continue(req) => {
                lemma_run_transcript_len(m2, replies.drop_first());
                let rec = spec_run(m2, replies.drop_first());
                assert(spec_run(m, replies).1 == seq![req] + rec.1);
            },
            StepV::Finished => {},
            StepV::Rejected(creq, d) => {
                assert(spec_run(m, replies).1 == seq![creq]);
            },
        }
    }
}

/// Once `started` holds, a run sends no further `StartSession`.
proof fn lemma_no_start_after_started(m: MachineV, replies: Seq<ResponseV>)
    requires
        m.started,
    ensures
        count_start_sessions(spec_run(m, replies).1) == 0,
    decreases replies.len(),
{
    if replies.len() == 0 {
        assert(count_start_sessions(Seq::<RequestV>::empty()) == 0);
    } else {
        let (m2, step) = spec_transition(m, replies[0]);
        match step {
            StepV::Continue(req) => {
                lemma_no_start_after_started(m2, replies.drop_first());
                let rec = spec_run(m2, replies.drop_first());
                assert(spec_run(m, replies).1 == seq![req] + rec.1);
                match replies[0] {
                    ResponseV::AuthMessage { auth_message_type, auth_message } => {
                        assert(!(req is StartSession));
                    },
                    ResponseV::Success => {
                        assert(false);
                    },
                    ResponseV::Error { error_type, description } => {
                        assert(false);
                    },
                }
                assert((seq![req] + rec.1)[0] == req);
                assert((seq![req] + rec.1).drop_first() =~= rec.1);
                assert(count_start_sessions(seq![req] + rec.1) == 0);
            },
            StepV::Finished => {
                assert(spec_run(m, replies).1 == Seq::<RequestV>::empty());
                assert(count_start_sessions(Seq::<RequestV>::empty()) == 0);
            },
            StepV::Rejected(creq, d) => {
                assert(spec_run(m, replies).1 == seq![creq]);
                assert(seq![creq][0] == creq);
                assert(!(creq is StartSession));
                assert(seq![creq].drop_first() =~= Seq::<RequestV>::empty());
                assert(count_start_sessions(Seq::<RequestV>::empty()) == 0);
                assert(count_start_sessions(seq![creq]) == 0);
            },
        }
    }
}

/// A run that starts before `started` sends at most one `StartSession`; any
/// `StartSession` answers a `Success` reply, and every reply consumed before
/// that `Success` was an authentication prompt.
pub proof fn lemma_start_session_unique(m: MachineV, replies: Seq<ResponseV>)
    requires
        !m.started,
    ensures
        count_start_sessions(spec_run(m, replies).1) <= 1,
        forall|i: int|
            0 <= i < spec_run(m, replies).1.len() && spec_run(m, replies).1[i] is StartSession
                ==> replies[i] is Success && (forall|j: int| 0 <= j < i ==> replies[j]
                is AuthMessage),
    decreases replies.len(),
{
    if replies.len() == 0 {
    } else {
        let (m2, step) = spec_transition(m, replies[0]);
        let transcript = spec_run(m, replies).1;
        lemma_run_transcript_len(m, replies);
        match step {
            StepV::Continue(req) => {
                let rec = spec_run(m2, replies.drop_first());
                lemma_run_transcript_len(m2, replies.drop_first());
                assert(transcript == seq![req] + rec.1);
                assert(transcript[0] == req);
                assert(transcript.drop_first() =~= rec.1);
                if m2.started {
                    assert(replies[0] is Success);
                    lemma_no_start_after_started(m2, replies.drop_first());
                    lemma_count_zero_no_start(rec.1);
                    assert(count_start_sessions(rec.1) == 0);
                    lemma_count_nonneg(rec.1);
                    assert(count_start_sessions(transcript) <= 1);
                    assert forall|i: int|
                        0 <= i < transcript.len() && transcript[i] is StartSession implies replies[i]
                        is Success && (forall|j: int| 0 <= j < i ==> replies[j]
                        is AuthMessage) by {
                        if i > 0 {
                            assert(transcript[i] == rec.1[i - 1]);
                            assert(!(rec.1[i - 1] is StartSession));
                        } else {
                            assert(replies[0] is Success);
                        }
                    }
                } else {
                    assert(replies[0] is AuthMessage);
                    assert(!(req is StartSession));
                    lemma_start_session_unique(m2, replies.drop_first());
                    assert(count_start_sessions(transcript) == count_start_sessions(rec.1));
                    assert forall|i: int|
                        0 <= i < transcript.len() && transcript[i] is StartSession implies replies[i]
                        is Success && (forall|j: int| 0 <= j < i ==> replies[j]
                        is AuthMessage) by {
                        assert(i > 0);
                        assert(transcript[i] == rec.1[i - 1]);
                        assert(i - 1 < rec.1.len());
                        assert(rec.1.len() <= replies.drop_first().len());
                        assert(replies.drop_first()[i - 1] == replies[i]);
                        assert(replies[i] is Success);
                        assert forall|j: int| 0 <= j < i implies replies[j] is AuthMessage by {
                            if j > 0 {
                                assert(replies.drop_first()[j - 1] == replies[j]);
                                assert(replies.drop_first()[j - 1] is AuthMessage);
                            }
                        }
                    }
                }
            },
            StepV::Finished => {
                assert(transcript == Seq::<RequestV>::empty());
                assert(count_start_sessions(transcript) == 0);
            },
            StepV::Rejected(creq, d) => {
                assert(transcript == seq![creq]);
                assert(transcript[0] == creq);
                assert(transcript.drop_first() =~= Seq::<RequestV>::empty());
                assert(count_start_sessions(Seq::<RequestV>::empty()) == 0);
                assert(count_start_sessions(transcript) == 0);
            },
        }
    }
}

/// A run that logs in sends exactly one `StartSession`.
pub proof fn lemma_logged_in_sends_one_start(m: MachineV, replies: Seq<ResponseV>)
    requires
        !m.started,
    ensures
        spec_run(m, replies).0 is LoggedIn ==> count_start_sessions(spec_run(m, replies).1) == 1,
    decreases replies.len(),
{
    if replies.len() == 0 {
    } else {
        let (m2, step) = spec_transition(m, replies[0]);
        match step {
            StepV::Continue(req) => {
                let rec = spec_run(m2, replies.drop_first());
                assert(spec_run(m, replies).1 == seq![req] + rec.1);
                assert((seq![req] + rec.1)[0] == req);
                assert((seq![req] + rec.1).drop_first() =~= rec.1);
                if m2.started {
                    assert(req is StartSession);
                    lemma_no_start_after_started(m2, replies.drop_first());
                } else {
                    assert(!(req is StartSession));
                    lemma_logged_in_sends_one_start(m2, replies.drop_first());
                }
            },
            StepV::Finished => {
                match replies[0] {
                    ResponseV::AuthMessage { auth_message_type, auth_message } => {
                        assert(false);
                    },
                    ResponseV::Success => {
                        assert(false);
                    },
                    ResponseV::Error { error_type, description } => {
                        assert(false);
                    },
                }
            },
            StepV::Rejected(creq, d) => {},
        }
    }
}

/// The kind of a prompt reply, where it is one.
pub open spec fn prompt_kind_of(r: ResponseV) -> crate::msg::AuthMessageType
    recommends
        r is AuthMessage,
{
    match r {
        ResponseV::AuthMessage { auth_message_type, auth_message } => auth_message_type,
        _ => crate::msg::AuthMessageType::Info,
    }
}

/// Every consumed prompt is answered, in order, by exactly the owed
/// `PostAuthMessageResponse`, built from the credentials the run began with
/// — whatever the prompts' order and number.
pub proof fn lemma_prompt_replies_in_run(m: MachineV, replies: Seq<ResponseV>)
    ensures
        forall|i: int|
            0 <= i < spec_run(m, replies).1.len() && replies[i] is AuthMessage ==> spec_run(
                m,
                replies,
            ).1[i] == (RequestV::PostAuthMessageResponse {
                response: crate::machine::spec_reply(
                    prompt_kind_of(replies[i]),
                    m.username,
                    m.password,
                ),
            }),
    decreases replies.len(),
{
    if replies.len() == 0 {
    } else {
        let (m2, step) = spec_transition(m, replies[0]);
        let transcript = spec_run(m, replies).1;
        assert(m2.username == m.username);
        assert(m2.password == m.password);
        lemma_run_transcript_len(m, replies);
        match step {
            StepV::Continue(req) => {
                let rec = spec_run(m2, replies.drop_first());
                lemma_run_transcript_len(m2, replies.drop_first());
                assert(transcript == seq![req] + rec.1);
                assert(transcript[0] == req);
                lemma_prompt_replies_in_run(m2, replies.drop_first());
                assert forall|i: int|
                    0 <= i < transcript.len() && replies[i] is AuthMessage implies transcript[i]
                    == (RequestV::PostAuthMessageResponse {
                    response: crate::machine::spec_reply(
                        prompt_kind_of(replies[i]),
                        m.username,
                        m.password,
                    ),
                }) by {
                    if i > 0 {
                        assert(transcript[i] == rec.1[i - 1]);
                        assert(i - 1 < rec.1.len());
                        assert(rec.1.len() <= replies.drop_first().len());
                        assert(replies.drop_first()[i - 1] == replies[i]);
                    }
                }
            },
            StepV::Finished => {},
            StepV::Rejected(creq, d) => {
                assert(transcript == seq![creq]);
                assert(transcript[0] == creq);
            },
        }
    }
}

/// Whether a response is an `Error` carrying the given description.
pub open spec fn is_error_with(r: ResponseV, message: Seq<char>) -> bool {
    match r {
        ResponseV::Error { error_type, description } => description == message,
        _ => false,
    }
}

/// A run fails with a daemon description exactly by consuming an `Error`
/// reply carrying it, and the transcript then closes with the best-effort
/// `CancelSession`.
pub proof fn lemma_error_cancels_in_run(m: MachineV, replies: Seq<ResponseV>)
    ensures
        spec_run(m, replies).0 matches OutcomeV::AuthFailed { message } ==> spec_run(
            m,
            replies,
        ).1.len() >= 1 && spec_run(m, replies).1.last() == RequestV::CancelSession && (exists|
            i: int,
        |
            0 <= i < replies.len() && is_error_with(replies[i], message)),
    decreases replies.len(),
{
    if replies.len() == 0 {
    } else {
        let (m2, step) = spec_transition(m, replies[0]);
        match step {
            StepV::Continue(req) => {
                lemma_error_cancels_in_run(m2, replies.drop_first());
                let rec = spec_run(m2, replies.drop_first());
                match rec.0 {
                    OutcomeV::AuthFailed { message } => {
                        let transcript = spec_run(m, replies).1;
                        assert(transcript =~= seq![req] + rec.1);
                        assert(transcript.last() == rec.1.last());
                        let i = choose|i: int|
                            0 <= i < replies.drop_first().len() && is_error_with(
                                replies.drop_first()[i],
                                message,
                            );
                        assert(replies.drop_first()[i] == replies[i + 1]);
                        assert(is_error_with(replies[i + 1], message));
                    },
                    _ => {},
                }
            },
            StepV::Finished => {},
            StepV::Rejected(creq, d) => {
                assert(is_error_with(replies[0], d));
                assert(spec_run(m, replies).1 =~= seq![creq]);
            },
        }
    }
}

/// An exhausted reply stream — a dropped connection — is reported as a
/// transport error, with nothing sent for it: never a hang, never a silent
/// success.
pub proof fn lemma_eof_is_transport_error(m: MachineV)
    ensures
        spec_run(m, Seq::empty()) == (
            OutcomeV::TransportError { message: spec_eof_message() },
            Seq::<RequestV>::empty(),
        ),
{
}

/// `LoggedIn` is only ever reported after an explicit `Success` reply from
/// the daemon.
pub proof fn lemma_no_silent_success(m: MachineV, replies: Seq<ResponseV>)
    ensures
        spec_run(m, replies).0 is LoggedIn ==> exists|i: int|
            0 <= i < replies.len() && replies[i] is Success,
    decreases replies.len(),
{
    if replies.len() == 0 {
    } else {
        let (m2, step) = spec_transition(m, replies[0]);
        match step {
            StepV::Continue(req) => {
                lemma_no_silent_success(m2, replies.drop_first());
                if spec_run(m2, replies.drop_first()).0 is LoggedIn {
                    let i = choose|i: int|
                        0 <= i < replies.drop_first().len() && replies.drop_first()[i] is Success;
                    assert(replies[i + 1] is Success);
                }
            },
            StepV::Finished => {
                assert(replies[0] is Success);
            },
            StepV::Rejected(creq, d) => {},
        }
    }
}

} // verus!
