//! Canonical wire encoding of protocol messages.
//!
//! A message is carried as a JSON object tagged by a `type` field, exactly as
//! the daemon's own serializer produces it: fields in declaration order, no
//! whitespace, strings escaped with `\"`, `\\`, `\b`, `\t`, `\n`, `\f`, `\r`,
//! and `\u00XX` (lowercase hex) for the remaining control characters.

use vstd::prelude::*;
use vstd::string::*;
use crate::msg::{AuthMessageType, Request, RequestV, Response, ResponseV};

verus! {

/// Why a byte sequence could not be turned into a message, or a message not
/// into a frame.
#[derive(Clone, Copy, Debug, PartialEq, Eq, Structural)]
pub enum CodecError {
    /// The payload is not valid UTF-8.
    InvalidUtf8,
    /// The payload is UTF-8 but not a canonically encoded message.
    Malformed,
    /// The message is too large for a 32-bit length prefix.
    Oversized,
}

/// The lowercase hexadecimal digit for a value below 16.
pub open spec fn hex_digit(n: int) -> char {
    if n == 0 {
        '0'
    } else if n == 1 {
        '1'
    } else if n == 2 {
        '2'
    } else if n == 3 {
        '3'
    } else if n == 4 {
        '4'
    } else if n == 5 {
        '5'
    } else if n == 6 {
        '6'
    } else if n == 7 {
        '7'
    } else if n == 8 {
        '8'
    } else if n == 9 {
        '9'
    } else if n == 10 {
        'a'
    } else if n == 11 {
        'b'
    } else if n == 12 {
        'c'
    } else if n == 13 {
        'd'
    } else if n == 14 {
        'e'
    } else {
        'f'
    }
}

/// How one character appears inside a JSON string literal.
pub open spec fn json_escape_char(c: char) -> Seq<char> {
    if c == '"' {
        seq!['\\', '"']
    } else if c == '\\' {
        seq!['\\', '\\']
    } else if c == '\u{8}' {
        seq!['\\', 'b']
    } else if c == '\t' {
        seq!['\\', 't']
    } else if c == '\n' {
        seq!['\\', 'n']
    } else if c == '\u{c}' {
        seq!['\\', 'f']
    } else if c == '\r' {
        seq!['\\', 'r']
    } else if (c as u32) < 0x20 {
        seq!['\\', 'u', '0', '0', hex_digit((c as u32) as int / 16), hex_digit(
            (c as u32) as int % 16,
        )]
    } else {
        seq![c]
    }
}

/// How a whole string appears inside a JSON string literal.
pub open spec fn json_escape(s: Seq<char>) -> Seq<char>
    decreases s.len(),
{
    if s.len() == 0 {
        Seq::empty()
    } else {
        json_escape_char(s[0]) + json_escape(s.drop_first())
    }
}

/// The elements of a string list from position `k` on, each preceded by a
/// comma, as they appear inside a JSON array.
pub open spec fn json_items_from(xs: Seq<Seq<char>>, k: int) -> Seq<char>
    decreases xs.len() - k,
{
    if k < 0 || k >= xs.len() {
        Seq::empty()
    } else {
        seq![',', '"'] + json_escape(xs[k]) + seq!['"'] + json_items_from(xs, k + 1)
    }
}

/// A list of strings as a JSON array.
pub open spec fn json_list(xs: Seq<Seq<char>>) -> Seq<char> {
    if xs.len() == 0 {
        seq!['[', ']']
    } else {
        seq!['[', '"'] + json_escape(xs[0]) + seq!['"'] + json_items_from(xs, 1) + seq![']']
    }
}

/// The wire word for an authentication prompt kind.
pub open spec fn kind_word(k: AuthMessageType) -> Seq<char> {
    match k {
        AuthMessageType::Visible => "visible"@,
        AuthMessageType::Secret => "secret"@,
        AuthMessageType::Info => "info"@,
        AuthMessageType::Error => "error"@,
    }
}

/// The canonical JSON text of a response.
pub open spec fn spec_encode_response(v: ResponseV) -> Seq<char> {
    match v {
        ResponseV::Success => "{\"type\":\"success\"}"@,
        ResponseV::Error { error_type, description } => "{\"type\":\"error\",\"error_type\":\""@
            + json_escape(error_type) + seq!['"'] + ",\"description\":\""@ + json_escape(
            description,
        ) + seq!['"', '}'],
        ResponseV::AuthMessage { auth_message_type, auth_message } =>
            "{\"type\":\"auth_message\",\"auth_message_type\":\""@ + kind_word(auth_message_type)
            + seq!['"'] + ",\"auth_message\":\""@ + json_escape(auth_message) + seq!['"', '}'],
    }
}

/// The canonical JSON text of a request.
pub open spec fn spec_encode_request(v: RequestV) -> Seq<char> {
    match v {
        RequestV::CreateSession { username } => "{\"type\":\"create_session\",\"username\":\""@
            + json_escape(username) + seq!['"', '}'],
        RequestV::PostAuthMessageResponse { response } => match response {
            None => "{\"type\":\"post_auth_message_response\",\"response\":null}"@,
            Some(s) => "{\"type\":\"post_auth_message_response\",\"response\":\""@ + json_escape(s)
                + seq!['"', '}'],
        },
        RequestV::StartSession { cmd, env } => "{\"type\":\"start_session\",\"cmd\":"@ + json_list(
            cmd,
        ) + ",\"env\":"@ + json_list(env) + seq!['}'],
        RequestV::CancelSession => "{\"type\":\"cancel_session\"}"@,
    }
}

/// Relies on String::push: appends exactly the given character.
#[verifier::external_body]
pub(crate) fn push_char(s: &mut String, c: char)
    ensures
        final(s)@ == old(s)@.push(c),
{
    s.push(c);
}

/// The lowercase hexadecimal digit character of a value below 16.
fn hex_digit_char(n: u32) -> (c: char)
    requires
        n < 16,
    ensures
        c == hex_digit(n as int),
{
    if n == 0 {
        '0'
    } else if n == 1 {
        '1'
    } else if n == 2 {
        '2'
    } else if n == 3 {
        '3'
    } else if n == 4 {
        '4'
    } else if n == 5 {
        '5'
    } else if n == 6 {
        '6'
    } else if n == 7 {
        '7'
    } else if n == 8 {
        '8'
    } else if n == 9 {
        '9'
    } else if n == 10 {
        'a'
    } else if n == 11 {
        'b'
    } else if n == 12 {
        'c'
    } else if n == 13 {
        'd'
    } else if n == 14 {
        'e'
    } else {
        'f'
    }
}

/// Appends the escaped form of one character.
fn escape_char_into(out: &mut String, c: char)
    ensures
        final(out)@ == old(out)@ + json_escape_char(c),
{
    if c == '"' {
        push_char(out, '\\');
        push_char(out, '"');
        proof {
            assert(out@ =~= old(out)@ + json_escape_char(c));
        }
    } else if c == '\\' {
        push_char(out, '\\');
        push_char(out, '\\');
        proof {
            assert(out@ =~= old(out)@ + json_escape_char(c));
        }
    } else if c == '\u{8}' {
        push_char(out, '\\');
        push_char(out, 'b');
        proof {
            assert(out@ =~= old(out)@ + json_escape_char(c));
        }
    } else if c == '\t' {
        push_char(out, '\\');
        push_char(out, 't');
        proof {
            assert(out@ =~= old(out)@ + json_escape_char(c));
        }
    } else if c == '\n' {
        push_char(out, '\\');
        push_char(out, 'n');
        proof {
            assert(out@ =~= old(out)@ + json_escape_char(c));
        }
    } else if c == '\u{c}' {
        push_char(out, '\\');
        push_char(out, 'f');
        proof {
            assert(out@ =~= old(out)@ + json_escape_char(c));
        }
    } else if c == '\r' {
        push_char(out, '\\');
        push_char(out, 'r');
        proof {
            assert(out@ =~= old(out)@ + json_escape_char(c));
        }
    } else if (c as u32) < 0x20 {
        let u: u32 = c as u32;
        push_char(out, '\\');
        push_char(out, 'u');
        push_char(out, '0');
        push_char(out, '0');
        push_char(out, hex_digit_char(u / 16));
        push_char(out, hex_digit_char(u % 16));
        proof {
            assert(out@ =~= old(out)@ + json_escape_char(c));
        }
    } else {
        push_char(out, c);
        proof {
            assert(out@ =~= old(out)@ + json_escape_char(c));
        }
    }
}

/// Escaping distributes over appending one character.
proof fn lemma_json_escape_push(a: Seq<char>, c: char)
    ensures
        json_escape(a.push(c)) == json_escape(a) + json_escape_char(c),
    decreases a.len(),
{
    if a.len() == 0 {
        assert(a.push(c).drop_first() =~= Seq::<char>::empty());
        assert(a.push(c)[0] == c);
        assert(json_escape(Seq::<char>::empty()) == Seq::<char>::empty());
        assert(json_escape(a.push(c)) == json_escape_char(c) + json_escape(
            a.push(c).drop_first(),
        ));
        assert(json_escape(a.push(c)) =~= json_escape(a) + json_escape_char(c));
    } else {
        assert(a.push(c).drop_first() =~= a.drop_first().push(c));
        lemma_json_escape_push(a.drop_first(), c);
        assert(a.push(c)[0] == a[0]);
        assert(json_escape(a.push(c)) == json_escape_char(a[0]) + json_escape(
            a.drop_first().push(c),
        ));
        assert(json_escape(a.push(c)) =~= json_escape(a) + json_escape_char(c));
    }
}

/// Appends the escaped form of a whole string.
fn escape_into(out: &mut String, s: &str)
    ensures
        final(out)@ == old(out)@ + json_escape(s@),
{
    let n: usize = s.unicode_len();
    let mut i: usize = 0;
    proof {
        assert(s@.take(0) =~= Seq::<char>::empty());
        assert(out@ =~= out@ + json_escape(s@.take(0)));
    }
    while i < n
        invariant
            n == s@.len(),
            i <= n,
            out@ == old(out)@ + json_escape(s@.take(i as int)),
        decreases n - i,
    {
        let c = s.get_char(i);
        escape_char_into(out, c);
        proof {
            assert(s@.take(i as int).push(c) =~= s@.take(i + 1 as int));
            lemma_json_escape_push(s@.take(i as int), c);
            assert(out@ =~= old(out)@ + json_escape(s@.take(i + 1 as int)));
        }
        i = i + 1;
    }
    proof {
        assert(s@.take(n as int) =~= s@);
    }
}

/// Appends a list of strings as a JSON array.
fn encode_list_into(out: &mut String, items: &Vec<String>)
    ensures
        final(out)@ == old(out)@ + json_list(items.deep_view()),
{
    let ghost xs: Seq<Seq<char>> = items.deep_view();
    push_char(out, '[');
    if items.len() == 0 {
        push_char(out, ']');
        proof {
            assert(out@ =~= old(out)@ + json_list(xs));
        }
        return ;
    }
    push_char(out, '"');
    escape_into(out, items[0].as_str());
    push_char(out, '"');
    let mut i: usize = 1;
    proof {
        assert(items[0]@ == xs[0]);
        assert(out@ =~= old(out)@ + (seq!['[', '"'] + json_escape(xs[0]) + seq!['"']));
    }
    while i < items.len()
        invariant
            1 <= i <= xs.len(),
            xs == items.deep_view(),
            xs.len() == items@.len(),
            out@ == old(out)@ + (seq!['[', '"'] + json_escape(xs[0]) + seq!['"']) + json_items_upto(
                xs,
                i as int,
            ),
        decreases items@.len() - i,
    {
        push_char(out, ',');
        push_char(out, '"');
        escape_into(out, items[i].as_str());
        push_char(out, '"');
        proof {
            assert(items[i as int]@ == xs[i as int]);
            lemma_json_items_upto_step(xs, i as int);
            assert(out@ =~= old(out)@ + (seq!['[', '"'] + json_escape(xs[0]) + seq!['"'])
                + json_items_upto(xs, i + 1 as int));
        }
        i = i + 1;
    }
    push_char(out, ']');
    proof {
        lemma_json_items_upto_full(xs);
        assert(out@ =~= old(out)@ + json_list(xs));
    }
}

/// The comma-separated items strictly before position `k`.
pub open spec fn json_items_upto(xs: Seq<Seq<char>>, k: int) -> Seq<char>
    decreases k,
{
    if k <= 1 {
        Seq::empty()
    } else {
        json_items_upto(xs, k - 1) + (seq![',', '"'] + json_escape(xs[k - 1]) + seq!['"'])
    }
}

/// Extending the already-encoded prefix of a list by one item.
proof fn lemma_json_items_upto_step(xs: Seq<Seq<char>>, k: int)
    requires
        1 <= k,
    ensures
        json_items_upto(xs, k + 1) == json_items_upto(xs, k) + (seq![',', '"'] + json_escape(xs[k])
            + seq!['"']),
{
}

/// The encoded prefix of the whole list is the suffix encoding from 1.
proof fn lemma_json_items_upto_full(xs: Seq<Seq<char>>)
    ensures
        json_items_upto(xs, xs.len() as int) == json_items_from(xs, 1),
{
    lemma_json_items_agree(xs, xs.len() as int);
}

/// The prefix and suffix views of the comma-items agree on a whole split.
proof fn lemma_json_items_agree(xs: Seq<Seq<char>>, k: int)
    requires
        (xs.len() == 0 && k == 0) || (1 <= k <= xs.len()),
    ensures
        json_items_upto(xs, k) + json_items_from(xs, k) == json_items_from(xs, 1),
    decreases k,
{
    if xs.len() == 0 {
        assert(json_items_upto(xs, k) + json_items_from(xs, k) =~= json_items_from(xs, 1));
    } else if k <= 1 {
        assert(json_items_upto(xs, k) + json_items_from(xs, k) =~= json_items_from(xs, 1));
    } else {
        lemma_json_items_agree(xs, k - 1);
        assert(json_items_from(xs, k - 1) == seq![',', '"'] + json_escape(xs[k - 1]) + seq!['"']
            + json_items_from(xs, k));
        assert(json_items_upto(xs, k) + json_items_from(xs, k) =~= json_items_upto(xs, k - 1)
            + json_items_from(xs, k - 1));
    }
}

/// Encodes a response as its canonical JSON text.
pub fn encode_response(r: &Response) -> (out: String)
    ensures
        out@ == spec_encode_response(r@),
{
    match r {
        Response::Success => String::from_str("{\"type\":\"success\"}"),
        Response::Error { error_type, description } => {
            let mut out = String::from_str("{\"type\":\"error\",\"error_type\":\"");
            escape_into(&mut out, error_type.as_str());
            push_char(&mut out, '"');
            out.append(",\"description\":\"");
            escape_into(&mut out, description.as_str());
            push_char(&mut out, '"');
            push_char(&mut out, '}');
            proof {
                assert(out@ =~= spec_encode_response(r@));
            }
            out
        },
        Response::AuthMessage { auth_message_type, auth_message } => {
            let mut out = String::from_str("{\"type\":\"auth_message\",\"auth_message_type\":\"");
            match auth_message_type {
                AuthMessageType::Visible => out.append("visible"),
                AuthMessageType::Secret => out.append("secret"),
                AuthMessageType::Info => out.append("info"),
                AuthMessageType::Error => out.append("error"),
            }
            push_char(&mut out, '"');
            out.append(",\"auth_message\":\"");
            escape_into(&mut out, auth_message.as_str());
            push_char(&mut out, '"');
            push_char(&mut out, '}');
            proof {
                assert(out@ =~= spec_encode_response(r@));
            }
            out
        },
    }
}

/// Encodes a request as its canonical JSON text.
pub fn encode_request(r: &Request) -> (out: String)
    ensures
        out@ == spec_encode_request(r@),
{
    match r {
        Request::CreateSession { username } => {
            let mut out = String::from_str("{\"type\":\"create_session\",\"username\":\"");
            escape_into(&mut out, username.as_str());
            push_char(&mut out, '"');
            push_char(&mut out, '}');
            proof {
                assert(out@ =~= spec_encode_request(r@));
            }
            out
        },
        Request::PostAuthMessageResponse { response } => {
            match response {
                None => String::from_str(
                    "{\"type\":\"post_auth_message_response\",\"response\":null}",
                ),
                Some(s) => {
                    let mut out = String::from_str(
                        "{\"type\":\"post_auth_message_response\",\"response\":\"",
                    );
                    escape_into(&mut out, s.as_str());
                    push_char(&mut out, '"');
                    push_char(&mut out, '}');
                    proof {
                        assert(out@ =~= spec_encode_request(r@));
                    }
                    out
                },
            }
        },
        Request::StartSession { cmd, env } => {
            let mut out = String::from_str("{\"type\":\"start_session\",\"cmd\":");
            encode_list_into(&mut out, cmd);
            out.append(",\"env\":");
            encode_list_into(&mut out, env);
            push_char(&mut out, '}');
            proof {
                assert(out@ =~= spec_encode_request(r@));
            }
            out
        },
        Request::CancelSession => String::from_str("{\"type\":\"cancel_session\"}"),
    }
}

/// Encodes a request as one wire frame: a 4-byte little-endian length prefix
/// followed by the UTF-8 bytes of the canonical JSON text.
pub fn encode_request_frame(r: &Request) -> (res: Result<Vec<u8>, CodecError>)
    ensures
        match res {
            Ok(b) => vstd::utf8::encode_utf8(spec_encode_request(r@)).len() <= u32::MAX && b@
                == crate::frame::le_bytes_of_u32(
                vstd::utf8::encode_utf8(spec_encode_request(r@)).len() as u32,
            ) + vstd::utf8::encode_utf8(spec_encode_request(r@)),
            Err(e) => e == CodecError::Oversized && vstd::utf8::encode_utf8(
                spec_encode_request(r@),
            ).len() > u32::MAX,
        },
{
    let s = encode_request(r);
    let payload = s.as_str().as_bytes_vec();
    if payload.len() > u32::MAX as usize {
        return Err(CodecError::Oversized);
    }
    Ok(crate::frame::frame_payload(&payload))
}

/// Encodes a response as one wire frame, as the daemon itself would.
pub fn encode_response_frame(r: &Response) -> (res: Result<Vec<u8>, CodecError>)
    ensures
        match res {
            Ok(b) => vstd::utf8::encode_utf8(spec_encode_response(r@)).len() <= u32::MAX && b@
                == crate::frame::le_bytes_of_u32(
                vstd::utf8::encode_utf8(spec_encode_response(r@)).len() as u32,
            ) + vstd::utf8::encode_utf8(spec_encode_response(r@)),
            Err(e) => e == CodecError::Oversized && vstd::utf8::encode_utf8(
                spec_encode_response(r@),
            ).len() > u32::MAX,
        },
{
    let s = encode_response(r);
    let payload = s.as_str().as_bytes_vec();
    if payload.len() > u32::MAX as usize {
        return Err(CodecError::Oversized);
    }
    Ok(crate::frame::frame_payload(&payload))
}

} // verus!
