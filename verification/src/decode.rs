//! Decoding of canonical wire messages.
//!
//! The parsers accept exactly the canonical JSON text that [`crate::codec`]
//! produces — which is also exactly what the daemon's serializer produces —
//! and reject everything else.

use vstd::prelude::*;
use vstd::string::*;
use crate::codec::{
    hex_digit, json_escape, json_escape_char, json_items_from, json_list, kind_word,
    push_char, spec_encode_request, spec_encode_response, CodecError,
};
use crate::msg::{AuthMessageType, Request, RequestV, Response, ResponseV};

verus! {

/// Value of a lowercase hexadecimal digit character.
pub open spec fn hex_value(c: char) -> Option<int> {
    if c == '0' {
        Some(0)
    } else if c == '1' {
        Some(1)
    } else if c == '2' {
        Some(2)
    } else if c == '3' {
        Some(3)
    } else if c == '4' {
        Some(4)
    } else if c == '5' {
        Some(5)
    } else if c == '6' {
        Some(6)
    } else if c == '7' {
        Some(7)
    } else if c == '8' {
        Some(8)
    } else if c == '9' {
        Some(9)
    } else if c == 'a' {
        Some(10)
    } else if c == 'b' {
        Some(11)
    } else if c == 'c' {
        Some(12)
    } else if c == 'd' {
        Some(13)
    } else if c == 'e' {
        Some(14)
    } else if c == 'f' {
        Some(15)
    } else {
        None
    }
}

/// The character denoted by a single-letter escape code.
pub open spec fn short_escape_char(e: char) -> Option<char> {
    if e == '"' {
        Some('"')
    } else if e == '\\' {
        Some('\\')
    } else if e == 'b' {
        Some('\u{8}')
    } else if e == 't' {
        Some('\t')
    } else if e == 'n' {
        Some('\n')
    } else if e == 'f' {
        Some('\u{c}')
    } else if e == 'r' {
        Some('\r')
    } else {
        None
    }
}

/// Whether a code is one that the canonical encoding writes as `\u00XX`:
/// a control character with no single-letter escape.
pub open spec fn u_code_ok(u: int) -> bool {
    let c = (u as u32) as char;
    0 <= u < 0x20 && c != '\u{8}' && c != '\t' && c != '\n' && c != '\u{c}' && c != '\r'
}

/// Consumes an expected literal prefix, yielding the remainder.
pub open spec fn parse_lit(s: Seq<char>, lit: Seq<char>) -> Option<Seq<char>> {
    if lit.len() <= s.len() && s.take(lit.len() as int) == lit {
        Some(s.skip(lit.len() as int))
    } else {
        None
    }
}

/// Parses the body of a JSON string up to and including the closing quote,
/// yielding the unescaped content and the remainder.
pub open spec fn parse_string_body(s: Seq<char>) -> Option<(Seq<char>, Seq<char>)>
    decreases s.len(),
{
    if s.len() == 0 {
        None
    } else if s[0] == '"' {
        Some((Seq::empty(), s.drop_first()))
    } else if s[0] == '\\' {
        if s.len() >= 2 && short_escape_char(s[1]) is Some {
            match parse_string_body(s.skip(2)) {
                Some((t, r)) => Some((seq![short_escape_char(s[1]).unwrap()] + t, r)),
                None => None,
            }
        } else if s.len() >= 6 && s[1] == 'u' && s[2] == '0' && s[3] == '0' && hex_value(s[4])
            is Some && hex_value(s[5]) is Some && u_code_ok(
            hex_value(s[4]).unwrap() * 16 + hex_value(s[5]).unwrap(),
        ) {
            match parse_string_body(s.skip(6)) {
                Some((t, r)) => Some(
                    (
                        seq![((hex_value(s[4]).unwrap() * 16 + hex_value(s[5]).unwrap()) as u32) as char]
                            + t,
                        r,
                    ),
                ),
                None => None,
            }
        } else {
            None
        }
    } else if (s[0] as u32) < 0x20 {
        None
    } else {
        match parse_string_body(s.drop_first()) {
            Some((t, r)) => Some((seq![s[0]] + t, r)),
            None => None,
        }
    }
}

/// A successful string-body parse consumes at least the closing quote.
pub proof fn lemma_parse_string_body_consumes(s: Seq<char>)
    ensures
        parse_string_body(s) matches Some(p) ==> p.1.len() < s.len(),
    decreases s.len(),
{
    if s.len() == 0 {
    } else if s[0] == '"' {
    } else if s[0] == '\\' {
        if s.len() >= 2 && short_escape_char(s[1]) is Some {
            lemma_parse_string_body_consumes(s.skip(2));
        } else if s.len() >= 6 && s[1] == 'u' && s[2] == '0' && s[3] == '0' && hex_value(s[4])
            is Some && hex_value(s[5]) is Some && u_code_ok(
            hex_value(s[4]).unwrap() * 16 + hex_value(s[5]).unwrap(),
        ) {
            lemma_parse_string_body_consumes(s.skip(6));
        }
    } else if (s[0] as u32) < 0x20 {
    } else {
        lemma_parse_string_body_consumes(s.drop_first());
    }
}

/// Parses the items of a nonempty JSON string array, starting just after the
/// opening quote of the first item, up to and including the closing bracket.
pub open spec fn parse_list_items(s: Seq<char>) -> Option<(Seq<Seq<char>>, Seq<char>)>
    decreases s.len(),
    via parse_list_items_decreases
{
    match parse_string_body(s) {
        None => None,
        Some((x, r)) => if r.len() >= 1 && r[0] == ']' {
            Some((seq![x], r.skip(1)))
        } else if r.len() >= 2 && r[0] == ',' && r[1] == '"' {
            match parse_list_items(r.skip(2)) {
                Some((xs, r2)) => Some((seq![x] + xs, r2)),
                None => None,
            }
        } else {
            None
        },
    }
}

#[via_fn]
proof fn parse_list_items_decreases(s: Seq<char>) {
    lemma_parse_string_body_consumes(s);
}

/// Parses a JSON array of strings, yielding the strings and the remainder.
pub open spec fn parse_string_list(s: Seq<char>) -> Option<(Seq<Seq<char>>, Seq<char>)> {
    if s.len() >= 2 && s[0] == '[' && s[1] == ']' {
        Some((Seq::empty(), s.skip(2)))
    } else if s.len() >= 2 && s[0] == '[' && s[1] == '"' {
        parse_list_items(s.skip(2))
    } else {
        None
    }
}

/// Parses the prompt kind word together with the text that separates it from
/// the `auth_message` field.
pub open spec fn parse_kind(s: Seq<char>) -> Option<(AuthMessageType, Seq<char>)> {
    match parse_lit(s, "visible\",\"auth_message\":\""@) {
        Some(r) => Some((AuthMessageType::Visible, r)),
        None => match parse_lit(s, "secret\",\"auth_message\":\""@) {
            Some(r) => Some((AuthMessageType::Secret, r)),
            None => match parse_lit(s, "info\",\"auth_message\":\""@) {
                Some(r) => Some((AuthMessageType::Info, r)),
                None => match parse_lit(s, "error\",\"auth_message\":\""@) {
                    Some(r) => Some((AuthMessageType::Error, r)),
                    None => None,
                },
            },
        },
    }
}

/// The response denoted by a canonical JSON text, if any.
pub open spec fn spec_decode_response(s: Seq<char>) -> Option<ResponseV> {
    if s == "{\"type\":\"success\"}"@ {
        Some(ResponseV::Success)
    } else {
        match parse_lit(s, "{\"type\":\"error\",\"error_type\":\""@) {
            Some(r1) => match parse_string_body(r1) {
                Some((et, r2)) => match parse_lit(r2, ",\"description\":\""@) {
                    Some(r3) => match parse_string_body(r3) {
                        Some((d, r4)) => if r4 == seq!['}'] {
                            Some(ResponseV::Error { error_type: et, description: d })
                        } else {
                            None
                        },
                        None => None,
                    },
                    None => None,
                },
                None => None,
            },
            None => match parse_lit(s, "{\"type\":\"auth_message\",\"auth_message_type\":\""@) {
                Some(r1) => match parse_kind(r1) {
                    Some((k, r2)) => match parse_string_body(r2) {
                        Some((m, r3)) => if r3 == seq!['}'] {
                            Some(ResponseV::AuthMessage {
                                auth_message_type: k,
                                auth_message: m,
                            })
                        } else {
                            None
                        },
                        None => None,
                    },
                    None => None,
                },
                None => None,
            },
        }
    }
}

/// The request denoted by a canonical JSON text, if any.
pub open spec fn spec_decode_request(s: Seq<char>) -> Option<RequestV> {
    if s == "{\"type\":\"cancel_session\"}"@ {
        Some(RequestV::CancelSession)
    } else if s == "{\"type\":\"post_auth_message_response\",\"response\":null}"@ {
        Some(RequestV::PostAuthMessageResponse { response: None })
    } else {
        match parse_lit(s, "{\"type\":\"create_session\",\"username\":\""@) {
            Some(r1) => match parse_string_body(r1) {
                Some((u, r2)) => if r2 == seq!['}'] {
                    Some(RequestV::CreateSession { username: u })
                } else {
                    None
                },
                None => None,
            },
            None => match parse_lit(
                s,
                "{\"type\":\"post_auth_message_response\",\"response\":\""@,
            ) {
                Some(r1) => match parse_string_body(r1) {
                    Some((p, r2)) => if r2 == seq!['}'] {
                        Some(RequestV::PostAuthMessageResponse { response: Some(p) })
                    } else {
                        None
                    },
                    None => None,
                },
                None => match parse_lit(s, "{\"type\":\"start_session\",\"cmd\":"@) {
                    Some(r1) => match parse_string_list(r1) {
                        Some((cmd, r2)) => match parse_lit(r2, ",\"env\":"@) {
                            Some(r3) => match parse_string_list(r3) {
                                Some((env, r4)) => if r4 == seq!['}'] {
                                    Some(RequestV::StartSession { cmd, env })
                                } else {
                                    None
                                },
                                None => None,
                            },
                            None => None,
                        },
                        None => None,
                    },
                    None => None,
                },
            },
        }
    }
}

/// A literal prefix parses off exactly itself.
pub proof fn lemma_parse_lit_prefix(lit: Seq<char>, rest: Seq<char>)
    ensures
        parse_lit(lit + rest, lit) == Some(rest),
{
    assert((lit + rest).take(lit.len() as int) =~= lit);
    assert((lit + rest).skip(lit.len() as int) =~= rest);
}

/// A literal fails to parse where some position disagrees.
pub proof fn lemma_parse_lit_diff(s: Seq<char>, lit: Seq<char>, i: int)
    requires
        0 <= i < lit.len(),
        i < s.len(),
        s[i] != lit[i],
    ensures
        parse_lit(s, lit) is None,
{
    if lit.len() <= s.len() && s.take(lit.len() as int) == lit {
        assert(s.take(lit.len() as int)[i] == s[i]);
    }
}

/// Hex digits read back as their value.
proof fn lemma_hex_round(n: int)
    requires
        0 <= n < 16,
    ensures
        hex_value(hex_digit(n)) == Some(n),
{
}

/// A single-letter escape parses back as the escaped character.
proof fn lemma_psb_short(e: char, c: char, x: Seq<char>, t2: Seq<char>, rest: Seq<char>)
    requires
        short_escape_char(e) == Some(c),
        parse_string_body(x) == Some((t2, rest)),
    ensures
        parse_string_body(seq!['\\', e] + x) == Some((seq![c] + t2, rest)),
{
    let s = seq!['\\', e] + x;
    assert(s[0] == '\\');
    assert(s[1] == e);
    assert(s.len() >= 2);
    assert(s.skip(2) =~= x);
}

/// A `\u00XX` escape parses back as the escaped character.
proof fn lemma_psb_u(c: char, x: Seq<char>, t2: Seq<char>, rest: Seq<char>)
    requires
        (c as u32) < 0x20,
        c != '\u{8}',
        c != '\t',
        c != '\n',
        c != '\u{c}',
        c != '\r',
        parse_string_body(x) == Some((t2, rest)),
    ensures
        parse_string_body(
            seq!['\\', 'u', '0', '0', hex_digit((c as u32) as int / 16), hex_digit(
                (c as u32) as int % 16,
            )] + x,
        ) == Some((seq![c] + t2, rest)),
{
    let u: int = (c as u32) as int;
    let h1 = hex_digit(u / 16);
    let h2 = hex_digit(u % 16);
    let s = seq!['\\', 'u', '0', '0', h1, h2] + x;
    assert(s[0] == '\\');
    assert(s[1] == 'u');
    assert(s[2] == '0');
    assert(s[3] == '0');
    assert(s[4] == h1);
    assert(s[5] == h2);
    assert(s.len() >= 6);
    lemma_hex_round(u / 16);
    lemma_hex_round(u % 16);
    assert(hex_value(s[4]).unwrap() * 16 + hex_value(s[5]).unwrap() == u);
    vstd::utf8::char_u32_cast(c, c as u32);
    assert((u as u32) as char == c);
    assert(u_code_ok(u));
    assert(short_escape_char('u') is None);
    assert(s.skip(6) =~= x);
    assert(parse_string_body(s) == Some((seq![(u as u32) as char] + t2, rest)));
}

/// The escaped form of a string, a closing quote, and a remainder parse back
/// as the string and the remainder.
pub proof fn lemma_parse_escaped(t: Seq<char>, rest: Seq<char>)
    ensures
        parse_string_body(json_escape(t) + (seq!['"'] + rest)) == Some((t, rest)),
    decreases t.len(),
{
    let s = json_escape(t) + (seq!['"'] + rest);
    if t.len() == 0 {
        assert(json_escape(t) == Seq::<char>::empty());
        assert(s =~= seq!['"'] + rest);
        assert(s[0] == '"');
        assert(s.drop_first() =~= rest);
        assert(t =~= Seq::<char>::empty());
    } else {
        let c = t[0];
        let tp = t.drop_first();
        let x = json_escape(tp) + (seq!['"'] + rest);
        lemma_parse_escaped(tp, rest);
        assert(json_escape(t) == json_escape_char(c) + json_escape(tp));
        assert(s =~= json_escape_char(c) + x);
        if c == '"' {
            assert(json_escape_char(c) =~= seq!['\\', '"']);
            lemma_psb_short('"', c, x, tp, rest);
        } else if c == '\\' {
            assert(json_escape_char(c) =~= seq!['\\', '\\']);
            lemma_psb_short('\\', c, x, tp, rest);
        } else if c == '\u{8}' {
            assert(json_escape_char(c) =~= seq!['\\', 'b']);
            lemma_psb_short('b', c, x, tp, rest);
        } else if c == '\t' {
            assert(json_escape_char(c) =~= seq!['\\', 't']);
            lemma_psb_short('t', c, x, tp, rest);
        } else if c == '\n' {
            assert(json_escape_char(c) =~= seq!['\\', 'n']);
            lemma_psb_short('n', c, x, tp, rest);
        } else if c == '\u{c}' {
            assert(json_escape_char(c) =~= seq!['\\', 'f']);
            lemma_psb_short('f', c, x, tp, rest);
        } else if c == '\r' {
            assert(json_escape_char(c) =~= seq!['\\', 'r']);
            lemma_psb_short('r', c, x, tp, rest);
        } else if (c as u32) < 0x20 {
            assert(json_escape_char(c) =~= seq!['\\', 'u', '0', '0', hex_digit(
                (c as u32) as int / 16,
            ), hex_digit((c as u32) as int % 16)]);
            lemma_psb_u(c, x, tp, rest);
        } else {
            assert(json_escape_char(c) =~= seq![c]);
            assert(s[0] == c);
            assert(s.drop_first() =~= x);
        }
        assert(seq![c] + tp =~= t);
    }
}

/// The items of an encoded string list from position `k` on parse back as the
/// remaining strings.
proof fn lemma_parse_items(xs: Seq<Seq<char>>, k: int, rest: Seq<char>)
    requires
        0 <= k < xs.len(),
    ensures
        parse_list_items(
            json_escape(xs[k]) + (seq!['"'] + (json_items_from(xs, k + 1) + (seq![']'] + rest))),
        ) == Some((xs.skip(k), rest)),
    decreases xs.len() - k,
{
    let tail = json_items_from(xs, k + 1) + (seq![']'] + rest);
    let s = json_escape(xs[k]) + (seq!['"'] + tail);
    lemma_parse_escaped(xs[k], tail);
    if k + 1 >= xs.len() {
        assert(json_items_from(xs, k + 1) == Seq::<char>::empty());
        assert(tail =~= seq![']'] + rest);
        assert(tail[0] == ']');
        assert(tail.skip(1) =~= rest);
        assert(xs.skip(k) =~= seq![xs[k]]);
    } else {
        assert(json_items_from(xs, k + 1) == seq![',', '"'] + json_escape(xs[k + 1]) + seq!['"']
            + json_items_from(xs, k + 2));
        assert(tail[0] == ',');
        assert(tail[1] == '"');
        lemma_parse_items(xs, k + 1, rest);
        assert(tail.skip(2) =~= json_escape(xs[k + 1]) + (seq!['"'] + (json_items_from(xs, k + 2)
            + (seq![']'] + rest))));
        assert(parse_list_items(tail.skip(2)) == Some((xs.skip(k + 1), rest)));
        assert(seq![xs[k]] + xs.skip(k + 1) =~= xs.skip(k));
    }
}

/// An encoded string list and a remainder parse back as the list and the
/// remainder.
pub proof fn lemma_parse_list(xs: Seq<Seq<char>>, rest: Seq<char>)
    ensures
        parse_string_list(json_list(xs) + rest) == Some((xs, rest)),
{
    let s = json_list(xs) + rest;
    if xs.len() == 0 {
        assert(s[0] == '[');
        assert(s[1] == ']');
        assert(s.skip(2) =~= rest);
        assert(xs =~= Seq::<Seq<char>>::empty());
    } else {
        assert(s[0] == '[');
        assert(s[1] == '"');
        lemma_parse_items(xs, 0, rest);
        assert(s.skip(2) =~= json_escape(xs[0]) + (seq!['"'] + (json_items_from(xs, 1) + (
        seq![']'] + rest))));
        assert(xs.skip(0) =~= xs);
    }
}

/// Decoding inverts encoding, for every response.
pub proof fn lemma_response_round_trip(v: ResponseV)
    ensures
        spec_decode_response(spec_encode_response(v)) == Some(v),
{
    reveal_strlit("{\"type\":\"success\"}");
    reveal_strlit("{\"type\":\"error\",\"error_type\":\"");
    reveal_strlit(",\"description\":\"");
    reveal_strlit("{\"type\":\"auth_message\",\"auth_message_type\":\"");
    reveal_strlit(",\"auth_message\":\"");
    let s = spec_encode_response(v);
    match v {
        ResponseV::Success => {
        },
        ResponseV::Error { error_type, description } => {
            let head = "{\"type\":\"error\",\"error_type\":\""@;
            let mid = ",\"description\":\""@;
            let r1 = json_escape(error_type) + (seq!['"'] + (mid + (json_escape(description)
                + seq!['"', '}'])));
            assert(s =~= head + r1);
            assert(s[9] == 'e');
            assert(s != "{\"type\":\"success\"}"@) by {
                if s == "{\"type\":\"success\"}"@ {
                    assert(s[9] == 's');
                }
            }
            lemma_parse_lit_prefix(head, r1);
            let t1 = mid + (json_escape(description) + seq!['"', '}']);
            assert(r1 =~= json_escape(error_type) + (seq!['"'] + t1));
            lemma_parse_escaped(error_type, t1);
            let r2 = json_escape(description) + (seq!['"'] + seq!['}']);
            assert(t1 =~= mid + r2);
            lemma_parse_lit_prefix(mid, r2);
            lemma_parse_escaped(description, seq!['}']);
        },
        ResponseV::AuthMessage { auth_message_type, auth_message } => {
            let head = "{\"type\":\"auth_message\",\"auth_message_type\":\""@;
            let errhead = "{\"type\":\"error\",\"error_type\":\""@;
            let mid = ",\"auth_message\":\""@;
            let r2 = json_escape(auth_message) + (seq!['"'] + seq!['}']);
            let r1 = kind_word(auth_message_type) + (seq!['"'] + (mid + r2));
            assert(s =~= head + r1);
            assert(s[9] == 'a');
            assert(s != "{\"type\":\"success\"}"@) by {
                if s == "{\"type\":\"success\"}"@ {
                    assert(s[9] == 's');
                }
            }
            assert(errhead[9] == 'e');
            lemma_parse_lit_diff(s, errhead, 9);
            lemma_parse_lit_prefix(head, r1);
            lemma_parse_kind(auth_message_type, r2);
            lemma_parse_escaped(auth_message, seq!['}']);
        },
    }
}

/// The kind word, closing quote, and field separator parse back as the kind.
proof fn lemma_parse_kind(k: AuthMessageType, rest: Seq<char>)
    ensures
        parse_kind(kind_word(k) + (seq!['"'] + (",\"auth_message\":\""@ + rest))) == Some(
            (k, rest),
        ),
{
    reveal_strlit("visible\",\"auth_message\":\"");
    reveal_strlit("secret\",\"auth_message\":\"");
    reveal_strlit("info\",\"auth_message\":\"");
    reveal_strlit("error\",\"auth_message\":\"");
    reveal_strlit(",\"auth_message\":\"");
    reveal_strlit("visible");
    reveal_strlit("secret");
    reveal_strlit("info");
    reveal_strlit("error");
    let s = kind_word(k) + (seq!['"'] + (",\"auth_message\":\""@ + rest));
    let vlit = "visible\",\"auth_message\":\""@;
    let slit = "secret\",\"auth_message\":\""@;
    let ilit = "info\",\"auth_message\":\""@;
    let elit = "error\",\"auth_message\":\""@;
    match k {
        AuthMessageType::Visible => {
            assert(s =~= vlit + rest);
            lemma_parse_lit_prefix(vlit, rest);
        },
        AuthMessageType::Secret => {
            assert(s[0] == 's');
            lemma_parse_lit_diff(s, vlit, 0);
            assert(s =~= slit + rest);
            lemma_parse_lit_prefix(slit, rest);
        },
        AuthMessageType::Info => {
            assert(s[0] == 'i');
            lemma_parse_lit_diff(s, vlit, 0);
            lemma_parse_lit_diff(s, slit, 0);
            assert(s =~= ilit + rest);
            lemma_parse_lit_prefix(ilit, rest);
        },
        AuthMessageType::Error => {
            assert(s[0] == 'e');
            lemma_parse_lit_diff(s, vlit, 0);
            lemma_parse_lit_diff(s, slit, 0);
            lemma_parse_lit_diff(s, ilit, 0);
            assert(s =~= elit + rest);
            lemma_parse_lit_prefix(elit, rest);
        },
    }
}

/// Decoding inverts encoding, for every request.
pub proof fn lemma_request_round_trip(v: RequestV)
    ensures
        spec_decode_request(spec_encode_request(v)) == Some(v),
{
    reveal_strlit("{\"type\":\"cancel_session\"}");
    reveal_strlit("{\"type\":\"post_auth_message_response\",\"response\":null}");
    reveal_strlit("{\"type\":\"create_session\",\"username\":\"");
    reveal_strlit("{\"type\":\"post_auth_message_response\",\"response\":\"");
    reveal_strlit("{\"type\":\"start_session\",\"cmd\":");
    reveal_strlit(",\"env\":");
    let s = spec_encode_request(v);
    let cancel = "{\"type\":\"cancel_session\"}"@;
    let postnull = "{\"type\":\"post_auth_message_response\",\"response\":null}"@;
    let createhead = "{\"type\":\"create_session\",\"username\":\""@;
    let posthead = "{\"type\":\"post_auth_message_response\",\"response\":\""@;
    let starthead = "{\"type\":\"start_session\",\"cmd\":"@;
    match v {
        RequestV::CancelSession => {
        },
        RequestV::PostAuthMessageResponse { response } => {
            match response {
                None => {
                    assert(s[9] == 'p');
                    assert(s != cancel) by {
                        if s == cancel {
                            assert(s[9] == 'c');
                        }
                    }
                },
                Some(p) => {
                    let r1 = json_escape(p) + seq!['"', '}'];
                    assert(s =~= posthead + r1);
                    assert(s[9] == 'p');
                    assert(s[48] == '"');
                    assert(s != cancel) by {
                        if s == cancel {
                            assert(s[9] == 'c');
                        }
                    }
                    assert(s != postnull) by {
                        if s == postnull {
                            assert(s[48] == 'n');
                        }
                    }
                    assert(createhead[9] == 'c');
                    lemma_parse_lit_diff(s, createhead, 9);
                    lemma_parse_lit_prefix(posthead, r1);
                    assert(r1 =~= json_escape(p) + (seq!['"'] + seq!['}']));
                    lemma_parse_escaped(p, seq!['}']);
                },
            }
        },
        RequestV::CreateSession { username } => {
            let r1 = json_escape(username) + seq!['"', '}'];
            assert(s =~= createhead + r1);
            assert(s[9] == 'c');
            assert(s[10] == 'r');
            assert(s != cancel) by {
                if s == cancel {
                    assert(s[10] == 'a');
                }
            }
            assert(s != postnull) by {
                if s == postnull {
                    assert(s[9] == 'p');
                }
            }
            lemma_parse_lit_prefix(createhead, r1);
            assert(r1 =~= json_escape(username) + (seq!['"'] + seq!['}']));
            lemma_parse_escaped(username, seq!['}']);
        },
        RequestV::StartSession { cmd, env } => {
            let envmid = ",\"env\":"@;
            let r1 = json_list(cmd) + (envmid + (json_list(env) + seq!['}']));
            assert(s =~= starthead + r1);
            assert(s[9] == 's');
            assert(s != cancel) by {
                if s == cancel {
                    assert(s[9] == 'c');
                }
            }
            assert(s != postnull) by {
                if s == postnull {
                    assert(s[9] == 'p');
                }
            }
            assert(createhead[9] == 'c');
            lemma_parse_lit_diff(s, createhead, 9);
            assert(posthead[9] == 'p');
            lemma_parse_lit_diff(s, posthead, 9);
            lemma_parse_lit_prefix(starthead, r1);
            let t1 = envmid + (json_list(env) + seq!['}']);
            assert(r1 =~= json_list(cmd) + t1);
            lemma_parse_list(cmd, t1);
            let r2 = json_list(env) + seq!['}'];
            assert(t1 =~= envmid + r2);
            lemma_parse_lit_prefix(envmid, r2);
            assert(r2 =~= json_list(env) + seq!['}']);
            lemma_parse_list(env, seq!['}']);
        },
    }
}

/// A literal parse splits the input exactly at the literal's end.
proof fn lemma_parse_lit_sound(s: Seq<char>, lit: Seq<char>)
    ensures
        parse_lit(s, lit) matches Some(r) ==> s == lit + r,
{
    if parse_lit(s, lit) is Some {
        assert(s =~= s.take(lit.len() as int) + s.skip(lit.len() as int));
    }
}

/// A short escape code reads back a character whose canonical escape it is.
proof fn lemma_short_escape_canonical(e: char)
    requires
        short_escape_char(e) is Some,
    ensures
        json_escape_char(short_escape_char(e).unwrap()) == seq!['\\', e],
{
}

/// A hexadecimal digit character is the digit of its value.
proof fn lemma_hex_digit_of_value(c: char)
    requires
        hex_value(c) is Some,
    ensures
        hex_digit(hex_value(c).unwrap()) == c,
{
}

/// A parsed string body is exactly the canonical escaping of its content,
/// the closing quote, and the remainder: the parser accepts nothing else.
pub proof fn lemma_parse_string_body_sound(s: Seq<char>)
    ensures
        parse_string_body(s) matches Some(p) ==> s == json_escape(p.0) + (seq!['"'] + p.1),
    decreases s.len(),
{
    if s.len() == 0 {
    } else if s[0] == '"' {
        assert(json_escape(Seq::<char>::empty()) == Seq::<char>::empty());
        assert(s =~= json_escape(Seq::<char>::empty()) + (seq!['"'] + s.drop_first()));
    } else if s[0] == '\\' {
        if s.len() >= 2 && short_escape_char(s[1]) is Some {
            lemma_parse_string_body_sound(s.skip(2));
            match parse_string_body(s.skip(2)) {
                Some((t, r)) => {
                    let c = short_escape_char(s[1]).unwrap();
                    lemma_short_escape_canonical(s[1]);
                    assert((seq![c] + t)[0] == c);
                    assert((seq![c] + t).drop_first() =~= t);
                    assert(json_escape(seq![c] + t) == json_escape_char(c) + json_escape(t));
                    assert(s.skip(2) == json_escape(t) + (seq!['"'] + r));
                    assert(s =~= seq!['\\', s[1]] + s.skip(2));
                    assert(s =~= json_escape(seq![c] + t) + (seq!['"'] + r));
                },
                None => {},
            }
        } else if s.len() >= 6 && s[1] == 'u' && s[2] == '0' && s[3] == '0' && hex_value(s[4])
            is Some && hex_value(s[5]) is Some && u_code_ok(
            hex_value(s[4]).unwrap() * 16 + hex_value(s[5]).unwrap(),
        ) {
            lemma_parse_string_body_sound(s.skip(6));
            match parse_string_body(s.skip(6)) {
                Some((t, r)) => {
                    let v1 = hex_value(s[4]).unwrap();
                    let v2 = hex_value(s[5]).unwrap();
                    let u = v1 * 16 + v2;
                    let c = (u as u32) as char;
                    assert(0 <= v1 < 16);
                    assert(0 <= v2 < 16);
                    assert(c as u32 == u);
                    assert(u / 16 == v1 && u % 16 == v2) by (nonlinear_arith)
                        requires
                            u == v1 * 16 + v2,
                            0 <= v1 < 16,
                            0 <= v2 < 16,
                    ;
                    lemma_hex_digit_of_value(s[4]);
                    lemma_hex_digit_of_value(s[5]);
                    assert(c != '"' && c != '\\');
                    assert(json_escape_char(c) =~= seq!['\\', 'u', '0', '0', s[4], s[5]]);
                    assert((seq![c] + t)[0] == c);
                    assert((seq![c] + t).drop_first() =~= t);
                    assert(json_escape(seq![c] + t) == json_escape_char(c) + json_escape(t));
                    assert(s.skip(6) == json_escape(t) + (seq!['"'] + r));
                    assert(s =~= seq!['\\', 'u', '0', '0', s[4], s[5]] + s.skip(6));
                    assert(s =~= json_escape(seq![c] + t) + (seq!['"'] + r));
                },
                None => {},
            }
        }
    } else if (s[0] as u32) < 0x20 {
    } else {
        lemma_parse_string_body_sound(s.drop_first());
        match parse_string_body(s.drop_first()) {
            Some((t, r)) => {
                let c = s[0];
                assert(json_escape_char(c) =~= seq![c]);
                assert((seq![c] + t)[0] == c);
                assert((seq![c] + t).drop_first() =~= t);
                assert(json_escape(seq![c] + t) == json_escape_char(c) + json_escape(t));
                assert(s.drop_first() == json_escape(t) + (seq!['"'] + r));
                assert(s =~= seq![c] + s.drop_first());
                assert(s =~= json_escape(seq![c] + t) + (seq!['"'] + r));
            },
            None => {},
        }
    }
}

/// Prepending an element shifts the comma-item encoding by one position.
proof fn lemma_items_from_shift(x: Seq<char>, xs: Seq<Seq<char>>, k: int)
    requires
        0 <= k,
    ensures
        json_items_from(seq![x] + xs, k + 1) == json_items_from(xs, k),
    decreases xs.len() - k,
{
    if k >= xs.len() {
    } else {
        assert((seq![x] + xs)[k + 1] == xs[k]);
        lemma_items_from_shift(x, xs, k + 1);
    }
}

/// A parsed item list is exactly the canonical encoding of its items.
proof fn lemma_parse_list_items_sound(s: Seq<char>)
    ensures
        parse_list_items(s) matches Some(p) ==> p.0.len() >= 1 && s == json_escape(p.0[0]) + (
        seq!['"'] + (json_items_from(p.0, 1) + (seq![']'] + p.1))),
    decreases s.len(),
{
    lemma_parse_string_body_consumes(s);
    match parse_string_body(s) {
        None => {},
        Some((x, r)) => {
            lemma_parse_string_body_sound(s);
            if r.len() >= 1 && r[0] == ']' {
                assert(json_items_from(seq![x], 1) == Seq::<char>::empty());
                assert(r =~= seq![']'] + r.skip(1));
                assert((seq![x])[0] == x);
                assert(s =~= json_escape(x) + (seq!['"'] + (json_items_from(seq![x], 1) + (
                seq![']'] + r.skip(1)))));
            } else if r.len() >= 2 && r[0] == ',' && r[1] == '"' {
                lemma_parse_list_items_sound(r.skip(2));
                match parse_list_items(r.skip(2)) {
                    Some((xs, r2)) => {
                        let combined = seq![x] + xs;
                        assert(combined[0] == x);
                        lemma_items_from_shift(x, xs, 0);
                        assert(json_items_from(xs, 0) == seq![',', '"'] + json_escape(xs[0])
                            + seq!['"'] + json_items_from(xs, 1));
                        assert(r.skip(2) == json_escape(xs[0]) + (seq!['"'] + (json_items_from(
                            xs,
                            1,
                        ) + (seq![']'] + r2))));
                        assert(r =~= seq![',', '"'] + r.skip(2));
                        assert(s =~= json_escape(combined[0]) + (seq!['"'] + (json_items_from(
                            combined,
                            1,
                        ) + (seq![']'] + r2))));
                    },
                    None => {},
                }
            }
        },
    }
}

/// A parsed string list is exactly the canonical list encoding followed by
/// the remainder: the parser accepts nothing else.
pub proof fn lemma_parse_string_list_sound(s: Seq<char>)
    ensures
        parse_string_list(s) matches Some(p) ==> s == json_list(p.0) + p.1,
{
    if s.len() >= 2 && s[0] == '[' && s[1] == ']' {
        assert(s =~= json_list(Seq::<Seq<char>>::empty()) + s.skip(2));
    } else if s.len() >= 2 && s[0] == '[' && s[1] == '"' {
        lemma_parse_list_items_sound(s.skip(2));
        match parse_list_items(s.skip(2)) {
            Some((xs, r)) => {
                assert(s.skip(2) == json_escape(xs[0]) + (seq!['"'] + (json_items_from(xs, 1) + (
                seq![']'] + r))));
                assert(s =~= seq!['[', '"'] + s.skip(2));
                assert(s =~= (seq!['[', '"'] + json_escape(xs[0]) + seq!['"'] + json_items_from(
                    xs,
                    1,
                ) + seq![']']) + r);
            },
            None => {},
        }
    }
}

/// A parsed kind is exactly the kind word and separator it denotes.
proof fn lemma_parse_kind_sound(s: Seq<char>)
    ensures
        parse_kind(s) matches Some(p) ==> s == kind_word(p.0) + (seq!['"'] + (
        ",\"auth_message\":\""@ + p.1)),
{
    reveal_strlit("visible\",\"auth_message\":\"");
    reveal_strlit("secret\",\"auth_message\":\"");
    reveal_strlit("info\",\"auth_message\":\"");
    reveal_strlit("error\",\"auth_message\":\"");
    reveal_strlit(",\"auth_message\":\"");
    reveal_strlit("visible");
    reveal_strlit("secret");
    reveal_strlit("info");
    reveal_strlit("error");
    lemma_parse_lit_sound(s, "visible\",\"auth_message\":\""@);
    lemma_parse_lit_sound(s, "secret\",\"auth_message\":\""@);
    lemma_parse_lit_sound(s, "info\",\"auth_message\":\""@);
    lemma_parse_lit_sound(s, "error\",\"auth_message\":\""@);
    match parse_kind(s) {
        Some((k, r)) => {
            assert(s =~= kind_word(k) + (seq!['"'] + (",\"auth_message\":\""@ + r)));
        },
        None => {},
    }
}

/// Only canonical encodings decode: a decoded response re-encodes to the
/// very input.
#[verifier::rlimit(80)]
pub proof fn lemma_decode_response_sound(s: Seq<char>)
    ensures
        spec_decode_response(s) matches Some(v) ==> s == spec_encode_response(v),
{
    if s == "{\"type\":\"success\"}"@ {
    } else {
        lemma_parse_lit_sound(s, "{\"type\":\"error\",\"error_type\":\""@);
        match parse_lit(s, "{\"type\":\"error\",\"error_type\":\""@) {
            Some(r1) => {
                lemma_parse_string_body_sound(r1);
                match parse_string_body(r1) {
                    Some((et, r2)) => {
                        lemma_parse_lit_sound(r2, ",\"description\":\""@);
                        match parse_lit(r2, ",\"description\":\""@) {
                            Some(r3) => {
                                lemma_parse_string_body_sound(r3);
                                match parse_string_body(r3) {
                                    Some((d, r4)) => {
                                        if r4 == seq!['}'] {
                                            assert(s =~= "{\"type\":\"error\",\"error_type\":\""@
                                                + json_escape(et) + seq!['"']
                                                + ",\"description\":\""@ + json_escape(d) + seq![
                                                '"',
                                                '}',
                                            ]);
                                        }
                                    },
                                    None => {},
                                }
                            },
                            None => {},
                        }
                    },
                    None => {},
                }
            },
            None => {
                lemma_parse_lit_sound(s, "{\"type\":\"auth_message\",\"auth_message_type\":\""@);
                match parse_lit(s, "{\"type\":\"auth_message\",\"auth_message_type\":\""@) {
                    Some(r1) => {
                        lemma_parse_kind_sound(r1);
                        match parse_kind(r1) {
                            Some((k, r2)) => {
                                lemma_parse_string_body_sound(r2);
                                match parse_string_body(r2) {
                                    Some((m, r3)) => {
                                        if r3 == seq!['}'] {
                                            assert(s
                                                =~= "{\"type\":\"auth_message\",\"auth_message_type\":\""@
                                                + kind_word(k) + seq!['"'] + ",\"auth_message\":\""@
                                                + json_escape(m) + seq!['"', '}']);
                                        }
                                    },
                                    None => {},
                                }
                            },
                            None => {},
                        }
                    },
                    None => {},
                }
            },
        }
    }
}

/// Only canonical encodings decode: a decoded request re-encodes to the very
/// input.
pub proof fn lemma_decode_request_sound(s: Seq<char>)
    ensures
        spec_decode_request(s) matches Some(v) ==> s == spec_encode_request(v),
{
    if s == "{\"type\":\"cancel_session\"}"@ {
    } else if s == "{\"type\":\"post_auth_message_response\",\"response\":null}"@ {
    } else {
        lemma_parse_lit_sound(s, "{\"type\":\"create_session\",\"username\":\""@);
        lemma_parse_lit_sound(s, "{\"type\":\"post_auth_message_response\",\"response\":\""@);
        lemma_parse_lit_sound(s, "{\"type\":\"start_session\",\"cmd\":"@);
        match parse_lit(s, "{\"type\":\"create_session\",\"username\":\""@) {
            Some(r1) => {
                lemma_parse_string_body_sound(r1);
                match parse_string_body(r1) {
                    Some((u, r2)) => {
                        if r2 == seq!['}'] {
                            assert(s =~= "{\"type\":\"create_session\",\"username\":\""@
                                + json_escape(u) + seq!['"', '}']);
                        }
                    },
                    None => {},
                }
            },
            None => {
                match parse_lit(s, "{\"type\":\"post_auth_message_response\",\"response\":\""@) {
                    Some(r1) => {
                        lemma_parse_string_body_sound(r1);
                        match parse_string_body(r1) {
                            Some((p, r2)) => {
                                if r2 == seq!['}'] {
                                    assert(s
                                        =~= "{\"type\":\"post_auth_message_response\",\"response\":\""@
                                        + json_escape(p) + seq!['"', '}']);
                                }
                            },
                            None => {},
                        }
                    },
                    None => {
                        match parse_lit(s, "{\"type\":\"start_session\",\"cmd\":"@) {
                            Some(r1) => {
                                lemma_parse_string_list_sound(r1);
                                match parse_string_list(r1) {
                                    Some((cmd, r2)) => {
                                        lemma_parse_lit_sound(r2, ",\"env\":"@);
                                        match parse_lit(r2, ",\"env\":"@) {
                                            Some(r3) => {
                                                lemma_parse_string_list_sound(r3);
                                                match parse_string_list(r3) {
                                                    Some((env, r4)) => {
                                                        if r4 == seq!['}'] {
                                                            assert(s
                                                                =~= "{\"type\":\"start_session\",\"cmd\":"@
                                                                + json_list(cmd) + ",\"env\":"@
                                                                + json_list(env) + seq!['}']);
                                                        }
                                                    },
                                                    None => {},
                                                }
                                            },
                                            None => {},
                                        }
                                    },
                                    None => {},
                                }
                            },
                            None => {},
                        }
                    },
                }
            },
        }
    }
}

/// A parsed string prefixed with already-read content.
pub open spec fn psb_prepend(p: Seq<char>, o: Option<(Seq<char>, Seq<char>)>) -> Option<
    (Seq<char>, Seq<char>),
> {
    match o {
        Some((t, r)) => Some((p + t, r)),
        None => None,
    }
}

proof fn lemma_psb_prepend_empty(o: Option<(Seq<char>, Seq<char>)>)
    ensures
        psb_prepend(Seq::empty(), o) == o,
{
    match o {
        Some((t, r)) => {
            assert(Seq::<char>::empty() + t =~= t);
        },
        None => {},
    }
}

proof fn lemma_psb_prepend_assoc(p: Seq<char>, q: Seq<char>, o: Option<(Seq<char>, Seq<char>)>)
    ensures
        psb_prepend(p, psb_prepend(q, o)) == psb_prepend(p + q, o),
{
    match o {
        Some((t, r)) => {
            assert(p + (q + t) =~= (p + q) + t);
        },
        None => {},
    }
}

/// A parsed item list prefixed with already-read items.
pub open spec fn pli_prepend(p: Seq<Seq<char>>, o: Option<(Seq<Seq<char>>, Seq<char>)>) -> Option<
    (Seq<Seq<char>>, Seq<char>),
> {
    match o {
        Some((xs, r)) => Some((p + xs, r)),
        None => None,
    }
}

proof fn lemma_pli_prepend_empty(o: Option<(Seq<Seq<char>>, Seq<char>)>)
    ensures
        pli_prepend(Seq::empty(), o) == o,
{
    match o {
        Some((xs, r)) => {
            assert(Seq::<Seq<char>>::empty() + xs =~= xs);
        },
        None => {},
    }
}

proof fn lemma_pli_prepend_assoc(
    p: Seq<Seq<char>>,
    q: Seq<Seq<char>>,
    o: Option<(Seq<Seq<char>>, Seq<char>)>,
)
    ensures
        pli_prepend(p, pli_prepend(q, o)) == pli_prepend(p + q, o),
{
    match o {
        Some((xs, r)) => {
            assert(p + (q + xs) =~= (p + q) + xs);
        },
        None => {},
    }
}

/// The character denoted by a single-letter escape code.
fn short_unescape(e: char) -> (r: Option<char>)
    ensures
        r == short_escape_char(e),
{
    if e == '"' {
        Some('"')
    } else if e == '\\' {
        Some('\\')
    } else if e == 'b' {
        Some('\u{8}')
    } else if e == 't' {
        Some('\t')
    } else if e == 'n' {
        Some('\n')
    } else if e == 'f' {
        Some('\u{c}')
    } else if e == 'r' {
        Some('\r')
    } else {
        None
    }
}

/// The value of a lowercase hexadecimal digit character.
fn hex_value_char(c: char) -> (r: Option<u32>)
    ensures
        match r {
            Some(v) => v < 16 && hex_value(c) == Some(v as int),
            None => hex_value(c) is None,
        },
{
    if c == '0' {
        Some(0)
    } else if c == '1' {
        Some(1)
    } else if c == '2' {
        Some(2)
    } else if c == '3' {
        Some(3)
    } else if c == '4' {
        Some(4)
    } else if c == '5' {
        Some(5)
    } else if c == '6' {
        Some(6)
    } else if c == '7' {
        Some(7)
    } else if c == '8' {
        Some(8)
    } else if c == '9' {
        Some(9)
    } else if c == 'a' {
        Some(10)
    } else if c == 'b' {
        Some(11)
    } else if c == 'c' {
        Some(12)
    } else if c == 'd' {
        Some(13)
    } else if c == 'e' {
        Some(14)
    } else if c == 'f' {
        Some(15)
    } else {
        None
    }
}

/// Relies on char::from_u32: every value below 0xD800 is a Unicode scalar
/// value, so the conversion succeeds and yields the character with exactly
/// that value.
#[verifier::external_body]
fn char_of_code(u: u32) -> (c: char)
    requires
        u < 0xd800,
    ensures
        c == (u as char),
{
    match char::from_u32(u) {
        Some(c) => c,
        None => ' ',
    }
}

/// Matches an expected literal at a position, yielding the position after it.
pub(crate) fn match_lit(s: &str, start: usize, lit: &str) -> (r: Option<usize>)
    requires
        start <= s@.len(),
    ensures
        match r {
            Some(j) => start <= j <= s@.len() && j == start + lit@.len() && parse_lit(
                s@.skip(start as int),
                lit@,
            ) == Some(s@.skip(j as int)),
            None => parse_lit(s@.skip(start as int), lit@) is None,
        },
{
    let n: usize = s.unicode_len();
    let m: usize = lit.unicode_len();
    if n - start < m {
        proof {
            assert(s@.skip(start as int).len() < lit@.len());
        }
        return None;
    }
    let mut k: usize = 0;
    while k < m
        invariant
            n == s@.len(),
            m == lit@.len(),
            start + m <= n,
            k <= m,
            forall|q: int| 0 <= q < k ==> s@[start + q] == lit@[q],
        decreases m - k,
    {
        if s.get_char(start + k) != lit.get_char(k) {
            proof {
                assert(s@.skip(start as int)[k as int] == s@[start + k]);
                lemma_parse_lit_diff(s@.skip(start as int), lit@, k as int);
            }
            return None;
        }
        k = k + 1;
    }
    proof {
        assert(s@.skip(start as int).take(m as int) =~= lit@);
        assert(s@.skip(start as int).skip(m as int) =~= s@.skip(start + m));
    }
    Some(start + m)
}

/// Whether the text is exactly the given literal.
fn match_exact(s: &str, lit: &str) -> (r: bool)
    ensures
        r == (s@ == lit@),
{
    let n: usize = s.unicode_len();
    proof {
        assert(s@.skip(0) =~= s@);
    }
    match match_lit(s, 0, lit) {
        Some(j) => {
            if j == n {
                proof {
                    assert(s@.take(lit@.len() as int) == lit@);
                    assert(s@.take(lit@.len() as int) =~= s@);
                }
                true
            } else {
                proof {
                    assert(s@.len() != lit@.len());
                }
                false
            }
        },
        None => {
            proof {
                if s@ == lit@ {
                    lemma_parse_lit_prefix(lit@, Seq::empty());
                    assert(lit@ + Seq::<char>::empty() =~= lit@);
                }
            }
            false
        },
    }
}

/// Whether the remainder at a position is exactly the closing brace.
fn ends_with_brace(s: &str, j: usize) -> (r: bool)
    requires
        j <= s@.len(),
    ensures
        r == (s@.skip(j as int) == seq!['}']),
{
    let n: usize = s.unicode_len();
    if n - j == 1 {
        let c = s.get_char(j);
        proof {
            assert(s@.skip(j as int)[0] == s@[j as int]);
            if c == '}' {
                assert(s@.skip(j as int) =~= seq!['}']);
            } else {
                if s@.skip(j as int) == seq!['}'] {
                    assert(s@.skip(j as int)[0] == '}');
                }
            }
        }
        c == '}'
    } else {
        proof {
            assert(seq!['}'].len() == 1);
            assert(s@.skip(j as int).len() != 1);
        }
        false
    }
}

/// Reads a JSON string body starting at a position, yielding the unescaped
/// content and the position after the closing quote.
fn scan_string(s: &str, start: usize) -> (r: Option<(String, usize)>)
    requires
        start <= s@.len(),
    ensures
        match r {
            Some(p) => start <= p.1 <= s@.len() && parse_string_body(s@.skip(start as int))
                == Some((p.0@, s@.skip(p.1 as int))),
            None => parse_string_body(s@.skip(start as int)) is None,
        },
{
    let n: usize = s.unicode_len();
    let mut acc = String::new();
    let mut i: usize = start;
    proof {
        lemma_psb_prepend_empty(parse_string_body(s@.skip(start as int)));
    }
    loop
        invariant
            start <= i <= n,
            n == s@.len(),
            psb_prepend(acc@, parse_string_body(s@.skip(i as int))) == parse_string_body(
                s@.skip(start as int),
            ),
        decreases n - i,
    {
        if i == n {
            proof {
                assert(s@.skip(i as int) =~= Seq::<char>::empty());
            }
            return None;
        }
        let c = s.get_char(i);
        proof {
            assert(s@.skip(i as int)[0] == s@[i as int]);
            assert(s@.skip(i as int).len() == n - i);
        }
        if c == '"' {
            proof {
                assert(s@.skip(i as int).drop_first() =~= s@.skip(i as int + 1));
                assert(acc@ + Seq::<char>::empty() =~= acc@);
            }
            return Some((acc, i + 1));
        } else if c == '\\' {
            if n - i < 2 {
                return None;
            }
            let e = s.get_char(i + 1);
            proof {
                assert(s@.skip(i as int)[1] == s@[i as int + 1]);
            }
            match short_unescape(e) {
                Some(c2) => {
                    let ghost acc0 = acc@;
                    push_char(&mut acc, c2);
                    proof {
                        assert(acc@ =~= acc0 + seq![c2]);
                        assert(s@.skip(i as int).skip(2) =~= s@.skip(i as int + 2));
                        lemma_psb_prepend_assoc(
                            acc0,
                            seq![c2],
                            parse_string_body(s@.skip(i as int + 2)),
                        );
                    }
                    i = i + 2;
                },
                None => {
                    if e != 'u' {
                        return None;
                    }
                    if n - i < 6 {
                        return None;
                    }
                    let d2 = s.get_char(i + 2);
                    let d3 = s.get_char(i + 3);
                    proof {
                        assert(s@.skip(i as int)[2] == s@[i as int + 2]);
                        assert(s@.skip(i as int)[3] == s@[i as int + 3]);
                        assert(s@.skip(i as int)[4] == s@[i as int + 4]);
                        assert(s@.skip(i as int)[5] == s@[i as int + 5]);
                    }
                    if d2 != '0' || d3 != '0' {
                        return None;
                    }
                    let v1 = match hex_value_char(s.get_char(i + 4)) {
                        Some(v) => v,
                        None => {
                            return None;
                        },
                    };
                    let v2 = match hex_value_char(s.get_char(i + 5)) {
                        Some(v) => v,
                        None => {
                            return None;
                        },
                    };
                    let u: u32 = v1 * 16 + v2;
                    if u >= 0x20 {
                        return None;
                    }
                    let c2 = char_of_code(u);
                    if c2 == '\u{8}' || c2 == '\t' || c2 == '\n' || c2 == '\u{c}' || c2 == '\r' {
                        return None;
                    }
                    let ghost acc0 = acc@;
                    push_char(&mut acc, c2);
                    proof {
                        assert(acc@ =~= acc0 + seq![c2]);
                        assert(s@.skip(i as int).skip(6) =~= s@.skip(i as int + 6));
                        lemma_psb_prepend_assoc(
                            acc0,
                            seq![c2],
                            parse_string_body(s@.skip(i as int + 6)),
                        );
                    }
                    i = i + 6;
                },
            }
        } else if (c as u32) < 0x20 {
            return None;
        } else {
            let ghost acc0 = acc@;
            push_char(&mut acc, c);
            proof {
                assert(acc@ =~= acc0 + seq![c]);
                assert(s@.skip(i as int).drop_first() =~= s@.skip(i as int + 1));
                lemma_psb_prepend_assoc(acc0, seq![c], parse_string_body(s@.skip(i as int + 1)));
            }
            i = i + 1;
        }
    }
}

/// Reads a JSON array of strings starting at a position, yielding the strings
/// and the position after the closing bracket.
fn scan_list(s: &str, start: usize) -> (r: Option<(Vec<String>, usize)>)
    requires
        start <= s@.len(),
    ensures
        match r {
            Some(p) => start <= p.1 <= s@.len() && parse_string_list(s@.skip(start as int))
                == Some((p.0.deep_view(), s@.skip(p.1 as int))),
            None => parse_string_list(s@.skip(start as int)) is None,
        },
{
    let n: usize = s.unicode_len();
    if n - start < 2 {
        proof {
            assert(s@.skip(start as int).len() < 2);
        }
        return None;
    }
    let c0 = s.get_char(start);
    let c1 = s.get_char(start + 1);
    proof {
        assert(s@.skip(start as int)[0] == s@[start as int]);
        assert(s@.skip(start as int)[1] == s@[start as int + 1]);
    }
    if c0 != '[' {
        return None;
    }
    if c1 == ']' {
        let out: Vec<String> = Vec::new();
        proof {
            assert(out.deep_view() =~= Seq::<Seq<char>>::empty());
            assert(s@.skip(start as int).skip(2) =~= s@.skip(start as int + 2));
        }
        return Some((out, start + 2));
    }
    if c1 != '"' {
        return None;
    }
    let ghost items_start: int = start as int + 2;
    let mut out: Vec<String> = Vec::new();
    let mut i: usize = start + 2;
    proof {
        assert(s@.skip(start as int).skip(2) =~= s@.skip(items_start));
        lemma_pli_prepend_empty(parse_list_items(s@.skip(items_start)));
        assert(out.deep_view() =~= Seq::<Seq<char>>::empty());
        assert(parse_string_list(s@.skip(start as int)) == parse_list_items(s@.skip(items_start)));
    }
    loop
        invariant
            start as int + 2 <= i <= n,
            items_start == start as int + 2,
            n == s@.len(),
            start as int + 2 <= n,
            parse_string_list(s@.skip(start as int)) == parse_list_items(s@.skip(items_start)),
            pli_prepend(out.deep_view(), parse_list_items(s@.skip(i as int))) == parse_list_items(
                s@.skip(items_start),
            ),
        decreases n - i,
    {
        match scan_string(s, i) {
            None => {
                return None;
            },
            Some((x, j)) => {
                proof {
                    lemma_parse_string_body_consumes(s@.skip(i as int));
                }
                let ghost out0 = out.deep_view();
                if j < n {
                    let cj = s.get_char(j);
                    proof {
                        assert(s@.skip(j as int)[0] == s@[j as int]);
                        assert(s@.skip(j as int).len() == n - j);
                    }
                    if cj == ']' {
                        out.push(x);
                        proof {
                            assert(out.deep_view() =~= out0 + seq![x@]);
                            assert(s@.skip(j as int).skip(1) =~= s@.skip(j as int + 1));
                            assert(parse_list_items(s@.skip(i as int)) == Some(
                                (seq![x@], s@.skip(j as int + 1)),
                            ));
                        }
                        return Some((out, j + 1));
                    }
                    if cj == ',' && j + 1 < n {
                        let cj1 = s.get_char(j + 1);
                        proof {
                            assert(s@.skip(j as int)[1] == s@[j as int + 1]);
                        }
                        if cj1 == '"' {
                            out.push(x);
                            proof {
                                assert(out.deep_view() =~= out0 + seq![x@]);
                                assert(s@.skip(j as int).skip(2) =~= s@.skip(j as int + 2));
                                assert(parse_list_items(s@.skip(i as int)) == pli_prepend(
                                    seq![x@],
                                    parse_list_items(s@.skip(j as int + 2)),
                                ));
                                lemma_pli_prepend_assoc(
                                    out0,
                                    seq![x@],
                                    parse_list_items(s@.skip(j as int + 2)),
                                );
                            }
                            i = j + 2;
                            continue ;
                        }
                        return None;
                    }
                    return None;
                } else {
                    proof {
                        assert(s@.skip(j as int).len() == 0);
                    }
                    return None;
                }
            },
        }
    }
}

/// Matches a prompt kind word and the separator that follows it.
fn match_kind(s: &str, start: usize) -> (r: Option<(AuthMessageType, usize)>)
    requires
        start <= s@.len(),
    ensures
        match r {
            Some(p) => start <= p.1 <= s@.len() && parse_kind(s@.skip(start as int)) == Some(
                (p.0, s@.skip(p.1 as int)),
            ),
            None => parse_kind(s@.skip(start as int)) is None,
        },
{
    if let Some(j) = match_lit(s, start, "visible\",\"auth_message\":\"") {
        return Some((AuthMessageType::Visible, j));
    }
    if let Some(j) = match_lit(s, start, "secret\",\"auth_message\":\"") {
        return Some((AuthMessageType::Secret, j));
    }
    if let Some(j) = match_lit(s, start, "info\",\"auth_message\":\"") {
        return Some((AuthMessageType::Info, j));
    }
    if let Some(j) = match_lit(s, start, "error\",\"auth_message\":\"") {
        return Some((AuthMessageType::Error, j));
    }
    None
}

/// Decodes a canonical JSON text as a response.
pub fn decode_response(s: &str) -> (r: Result<Response, CodecError>)
    ensures
        match r {
            Ok(m) => spec_decode_response(s@) == Some(m@),
            Err(e) => e == CodecError::Malformed && spec_decode_response(s@) is None,
        },
{
    proof {
        assert(s@.skip(0) =~= s@);
    }
    if match_exact(s, "{\"type\":\"success\"}") {
        return Ok(Response::Success);
    }
    if let Some(j1) = match_lit(s, 0, "{\"type\":\"error\",\"error_type\":\"") {
        match scan_string(s, j1) {
            Some((et, j2)) => {
                if let Some(j3) = match_lit(s, j2, ",\"description\":\"") {
                    match scan_string(s, j3) {
                        Some((d, j4)) => {
                            if ends_with_brace(s, j4) {
                                Ok(Response::Error { error_type: et, description: d })
                            } else {
                                Err(CodecError::Malformed)
                            }
                        },
                        None => Err(CodecError::Malformed),
                    }
                } else {
                    Err(CodecError::Malformed)
                }
            },
            None => Err(CodecError::Malformed),
        }
    } else {
        if let Some(j1) = match_lit(s, 0, "{\"type\":\"auth_message\",\"auth_message_type\":\"") {
            match match_kind(s, j1) {
                Some((k, j2)) => {
                    match scan_string(s, j2) {
                        Some((m, j3)) => {
                            if ends_with_brace(s, j3) {
                                Ok(Response::AuthMessage {
                                    auth_message_type: k,
                                    auth_message: m,
                                })
                            } else {
                                Err(CodecError::Malformed)
                            }
                        },
                        None => Err(CodecError::Malformed),
                    }
                },
                None => Err(CodecError::Malformed),
            }
        } else {
            Err(CodecError::Malformed)
        }
    }
}

/// Decodes a canonical JSON text as a request.
pub fn decode_request(s: &str) -> (r: Result<Request, CodecError>)
    ensures
        match r {
            Ok(m) => spec_decode_request(s@) == Some(m@),
            Err(e) => e == CodecError::Malformed && spec_decode_request(s@) is None,
        },
{
    proof {
        assert(s@.skip(0) =~= s@);
    }
    if match_exact(s, "{\"type\":\"cancel_session\"}") {
        return Ok(Request::CancelSession);
    }
    if match_exact(s, "{\"type\":\"post_auth_message_response\",\"response\":null}") {
        return Ok(Request::PostAuthMessageResponse { response: None });
    }
    if let Some(j1) = match_lit(s, 0, "{\"type\":\"create_session\",\"username\":\"") {
        match scan_string(s, j1) {
            Some((u, j2)) => {
                if ends_with_brace(s, j2) {
                    Ok(Request::CreateSession { username: u })
                } else {
                    Err(CodecError::Malformed)
                }
            },
            None => Err(CodecError::Malformed),
        }
    } else {
        if let Some(j1) = match_lit(s, 0, "{\"type\":\"post_auth_message_response\",\"response\":\"")
             {
            match scan_string(s, j1) {
                Some((p, j2)) => {
                    if ends_with_brace(s, j2) {
                        Ok(Request::PostAuthMessageResponse { response: Some(p) })
                    } else {
                        Err(CodecError::Malformed)
                    }
                },
                None => Err(CodecError::Malformed),
            }
        } else {
            if let Some(j1) = match_lit(s, 0, "{\"type\":\"start_session\",\"cmd\":") {
                match scan_list(s, j1) {
                    Some((cmd, j2)) => {
                        if let Some(j3) = match_lit(s, j2, ",\"env\":") {
                            match scan_list(s, j3) {
                                Some((env, j4)) => {
                                    if ends_with_brace(s, j4) {
                                        Ok(Request::StartSession { cmd, env })
                                    } else {
                                        Err(CodecError::Malformed)
                                    }
                                },
                                None => Err(CodecError::Malformed),
                            }
                        } else {
                            Err(CodecError::Malformed)
                        }
                    },
                    None => Err(CodecError::Malformed),
                }
            } else {
                Err(CodecError::Malformed)
            }
        }
    }
}

/// Relies on String::from_utf8: it succeeds exactly on valid UTF-8 input, and
/// the characters of the result are the decoding of the bytes.
#[verifier::external_body]
fn bytes_to_string(b: Vec<u8>) -> (r: Option<String>)
    ensures
        match r {
            Some(s) => vstd::utf8::valid_utf8(b@) && s@ == vstd::utf8::decode_utf8(b@),
            None => !vstd::utf8::valid_utf8(b@),
        },
{
    match String::from_utf8(b) {
        Ok(s) => Some(s),
        Err(_) => None,
    }
}

/// Decodes a frame payload as a response.
pub fn decode_response_payload(b: Vec<u8>) -> (r: Result<Response, CodecError>)
    ensures
        match r {
            Ok(m) => vstd::utf8::valid_utf8(b@) && spec_decode_response(
                vstd::utf8::decode_utf8(b@),
            ) == Some(m@),
            Err(CodecError::InvalidUtf8) => !vstd::utf8::valid_utf8(b@),
            Err(CodecError::Malformed) => vstd::utf8::valid_utf8(b@) && spec_decode_response(
                vstd::utf8::decode_utf8(b@),
            ) is None,
            Err(CodecError::Oversized) => false,
        },
{
    match bytes_to_string(b) {
        None => Err(CodecError::InvalidUtf8),
        Some(s) => decode_response(s.as_str()),
    }
}

/// Decodes a frame payload as a request.
pub fn decode_request_payload(b: Vec<u8>) -> (r: Result<Request, CodecError>)
    ensures
        match r {
            Ok(m) => vstd::utf8::valid_utf8(b@) && spec_decode_request(vstd::utf8::decode_utf8(b@))
                == Some(m@),
            Err(CodecError::InvalidUtf8) => !vstd::utf8::valid_utf8(b@),
            Err(CodecError::Malformed) => vstd::utf8::valid_utf8(b@) && spec_decode_request(
                vstd::utf8::decode_utf8(b@),
            ) is None,
            Err(CodecError::Oversized) => false,
        },
{
    match bytes_to_string(b) {
        None => Err(CodecError::InvalidUtf8),
        Some(s) => decode_request(s.as_str()),
    }
}

/// Decoding inverts encoding through the UTF-8 byte representation too.
pub proof fn lemma_response_payload_round_trip(v: ResponseV)
    ensures
        vstd::utf8::valid_utf8(vstd::utf8::encode_utf8(spec_encode_response(v))),
        spec_decode_response(
            vstd::utf8::decode_utf8(vstd::utf8::encode_utf8(spec_encode_response(v))),
        ) == Some(v),
{
    vstd::utf8::encode_utf8_valid_utf8(spec_encode_response(v));
    vstd::utf8::encode_utf8_decode_utf8(spec_encode_response(v));
    lemma_response_round_trip(v);
}

/// Decoding inverts encoding through the UTF-8 byte representation too.
pub proof fn lemma_request_payload_round_trip(v: RequestV)
    ensures
        vstd::utf8::valid_utf8(vstd::utf8::encode_utf8(spec_encode_request(v))),
        spec_decode_request(
            vstd::utf8::decode_utf8(vstd::utf8::encode_utf8(spec_encode_request(v))),
        ) == Some(v),
{
    vstd::utf8::encode_utf8_valid_utf8(spec_encode_request(v));
    vstd::utf8::encode_utf8_decode_utf8(spec_encode_request(v));
    lemma_request_round_trip(v);
}

} // verus!
