//! The Telegram Bot API, as far as the bot uses it: the request that sends a
//! message, and what the reply proves.

use vstd::prelude::*;
use vstd::string::*;

use crate::http;
use crate::json;
use crate::model::{Outcome, Target, TargetView};

verus! {

/// Whether an HTTP status reports that the server failed.
pub open spec fn is_server_error(status: u16) -> bool {
    500 <= status < 600
}

/// What a reply proves, given its status, the flag `ok` of its body, and the
/// retry hint in its body.
pub open spec fn outcome_of(status: u16, ok: Option<bool>, retry_after: Option<u64>) -> Outcome {
    if http::is_success(status) {
        Outcome::Sent
    } else if is_server_error(status) || ok != Some(false) {
        Outcome::Unknown
    } else {
        match retry_after {
            Some(seconds) => Outcome::RetryAfter(seconds),
            None => Outcome::Rejected,
        }
    }
}

/// What a send that ended like this proves: with a reply, by its status and
/// body, or with none.
pub open spec fn reply_proves(reply: Option<(u16, Seq<char>)>) -> Outcome {
    match reply {
        Some((status, body)) => outcome_of(
            status,
            json::flag_in(body, "ok"@),
            json::number_at(body, "/parameters/retry_after"@),
        ),
        None => Outcome::Unknown,
    }
}

/// The members of the request that sends `text` to `target`.
pub open spec fn members_of(target: TargetView, text: Seq<char>) -> Seq<(Seq<char>, Seq<char>)> {
    let members = seq![
        ("chat_id"@, target.chat_id),
        ("text"@, text),
        ("parse_mode"@, "HTML"@),
    ];
    match target.thread_id {
        Some(thread_id) => members.push(("message_thread_id"@, thread_id)),
        None => members,
    }
}

/// What a reply proves. Without success, only Telegram's own error envelope,
/// whose `ok` is false, proves that nothing was posted, and not even that where
/// the server failed.
pub fn settle(status: u16, ok: Option<bool>, retry_after: Option<u64>) -> (r: Outcome)
    ensures
        r == outcome_of(status, ok, retry_after),
{
    if http::succeeded(status) {
        return Outcome::Sent;
    }
    if 500 <= status && status < 600 {
        return Outcome::Unknown;
    }
    match ok {
        Some(false) => match retry_after {
            Some(seconds) => Outcome::RetryAfter(seconds),
            None => Outcome::Rejected,
        },
        _ => Outcome::Unknown,
    }
}

/// Only Telegram's own error envelope proves the message was never posted. A
/// 5xx, a proxy error page or a dropped connection are all `Unknown`.
pub fn classify(status: u16, body: &str) -> (r: Outcome)
    ensures
        r == outcome_of(
            status,
            json::flag_in(body@, "ok"@),
            json::number_at(body@, "/parameters/retry_after"@),
        ),
{
    if http::succeeded(status) {
        return Outcome::Sent;
    }
    settle(
        status,
        json::read_flag(body, "ok"),
        json::read_number(body, "/parameters/retry_after"),
    )
}

/// What a send proves that ended with this reply, by its status and body, or
/// with none because the connection was dropped.
pub fn reply_outcome(reply: Option<(u16, String)>) -> (r: Outcome)
    ensures
        r == reply_proves(reply.deep_view()),
{
    match reply {
        Some((status, body)) => classify(status, &body),
        None => Outcome::Unknown,
    }
}

/// Where messages are sent to with `token`.
pub open spec fn address(token: Seq<char>) -> Seq<char> {
    "https://api.telegram.org/bot"@ + token + "/sendMessage"@
}

/// Where messages are sent to.
pub fn send_url(token: &str) -> (r: String)
    ensures
        r@ == "https://api.telegram.org/bot"@ + token@ + "/sendMessage"@,
        r@ == address(token@),
{
    "https://api.telegram.org/bot".to_string().concat(token).concat("/sendMessage")
}

/// The members of the request that sends `text` to `target`.
pub fn request_members(target: &Target, text: &str) -> (r: Vec<(String, String)>)
    ensures
        r.deep_view() == members_of(target@, text@),
{
    let mut r: Vec<(String, String)> = Vec::new();
    r.push(("chat_id".to_string(), target.chat_id.clone()));
    r.push(("text".to_string(), text.to_string()));
    r.push(("parse_mode".to_string(), "HTML".to_string()));
    match &target.thread_id {
        Some(thread_id) => {
            r.push(("message_thread_id".to_string(), thread_id.clone()));
        },
        None => {},
    }
    assert(r.deep_view() =~= members_of(target@, text@));
    r
}

/// The members of a request have different names.
proof fn lemma_member_names(target: TargetView, text: Seq<char>)
    ensures
        json::distinct_names(members_of(target, text)),
{
    reveal_strlit("chat_id");
    reveal_strlit("text");
    reveal_strlit("parse_mode");
    reveal_strlit("message_thread_id");
    assert("chat_id"@.len() == 7 && "text"@.len() == 4);
    assert("parse_mode"@.len() == 10 && "message_thread_id"@.len() == 17);
}

/// The body of the request that sends `text` to `target`. Read back, it holds
/// the members of the request and no others.
pub fn request_body(target: &Target, text: &str) -> (r: String)
    ensures
        r@ == json::object_text(members_of(target@, text@)),
        json::carries(r@, members_of(target@, text@)),
        json::has_string(r@, "chat_id"@, target@.chat_id),
        json::has_string(r@, "text"@, text@),
        json::has_string(r@, "parse_mode"@, "HTML"@),
        target@.thread_id is Some ==> json::has_string(
            r@,
            "message_thread_id"@,
            target@.thread_id->0,
        ),
        target@.thread_id is None ==> json::has_none(r@, "message_thread_id"@),
{
    proof {
        lemma_member_names(target@, text@);
    }
    let r = json::write_object(&request_members(target, text));
    proof {
        law_a_request_carries_the_whole_message(target@, text@, r@);
    }
    r
}

/// Read back as JSON, a request holds the chat of the destination, the whole
/// text, the parse mode, and the topic just where the destination has one; each
/// once, as a string under its own name, and nothing else.
pub proof fn law_a_request_carries_the_whole_message(
    target: TargetView,
    text: Seq<char>,
    body: Seq<char>,
)
    requires
        json::carries(body, members_of(target, text)),
    ensures
        json::has_string(body, "chat_id"@, target.chat_id),
        json::has_string(body, "text"@, text),
        json::has_string(body, "parse_mode"@, "HTML"@),
        target.thread_id is Some ==> json::has_string(
            body,
            "message_thread_id"@,
            target.thread_id->0,
        ),
        target.thread_id is None ==> json::has_none(body, "message_thread_id"@),
        json::object_members(body)->0.len() == if target.thread_id is Some {
            4int
        } else {
            3int
        },
{
    let members = members_of(target, text);
    lemma_member_names(target, text);
    json::lemma_carries(body, members);
    assert(members[0] == ("chat_id"@, target.chat_id));
    assert(members[1] == ("text"@, text));
    assert(members[2] == ("parse_mode"@, "HTML"@));
    reveal_strlit("chat_id");
    reveal_strlit("text");
    reveal_strlit("parse_mode");
    reveal_strlit("message_thread_id");
    match target.thread_id {
        Some(thread_id) => {
            assert(members[3] == ("message_thread_id"@, thread_id));
        },
        None => {
            assert("chat_id"@.len() == 7 && "text"@.len() == 4);
            assert("parse_mode"@.len() == 10 && "message_thread_id"@.len() == 17);
            assert(json::nowhere(members, "message_thread_id"@));
        },
    }
}

/// Only Telegram's own error envelope, not from a failing server, counts as
/// proof that a message was not delivered, and success as proof that it was;
/// anything else is unknown. A retry hint in the envelope is handed on as it
/// is.
pub proof fn law_only_the_envelope_proves_non_delivery(
    status: u16,
    ok: Option<bool>,
    retry_after: Option<u64>,
    seconds: u64,
)
    ensures
        outcome_of(status, ok, retry_after) is Sent <==> 200 <= status <= 299,
        outcome_of(status, ok, retry_after) is Rejected <==> !(200 <= status <= 299) && !(500
            <= status <= 599) && ok == Some(false) && retry_after is None,
        outcome_of(status, ok, retry_after) == Outcome::RetryAfter(seconds) <==> !(200 <= status
            <= 299) && !(500 <= status <= 599) && ok == Some(false) && retry_after == Some(seconds),
        outcome_of(status, ok, retry_after) is Unknown <==> !(200 <= status <= 299) && (500
            <= status <= 599 || ok != Some(false)),
{
}

/// A reply is judged by its status, the member `ok` of its body, and the retry
/// hint where Telegram puts it; a send without a reply is unknown.
pub proof fn law_a_reply_is_judged_by_its_envelope(status: u16, body: Seq<char>, seconds: u64)
    ensures
        reply_proves(None) is Unknown,
        reply_proves(Some((status, body))) is Sent <==> 200 <= status <= 299,
        reply_proves(Some((status, body))) is Rejected <==> !(200 <= status <= 299) && !(500
            <= status <= 599) && json::flag_in(body, "ok"@) == Some(false) && json::number_at(
            body,
            "/parameters/retry_after"@,
        ) is None,
        reply_proves(Some((status, body))) == Outcome::RetryAfter(seconds) <==> !(200 <= status
            <= 299) && !(500 <= status <= 599) && json::flag_in(body, "ok"@) == Some(false)
            && json::number_at(body, "/parameters/retry_after"@) == Some(seconds),
{
}

/// A server error and a dropped connection prove nothing, whatever the body.
pub proof fn law_a_server_error_and_a_dropped_connection_are_unknown(
    status: u16,
    ok: Option<bool>,
    retry_after: Option<u64>,
    body: Seq<char>,
)
    requires
        500 <= status <= 599,
    ensures
        outcome_of(status, ok, retry_after) == Outcome::Unknown,
        reply_proves(Some((status, body))) == Outcome::Unknown,
        reply_proves(None) == Outcome::Unknown,
{
}

/// Messages go to the address of the token, which holds the token as it is.
pub proof fn law_the_address_holds_the_token(token: Seq<char>)
    ensures
        ({
            let before = "https://api.telegram.org/bot"@;
            let behind = "/sendMessage"@;
            &&& address(token).len() == before.len() + token.len() + behind.len()
            &&& address(token).take(before.len() as int) == before
            &&& address(token).subrange(before.len() as int, (before.len() + token.len()) as int)
                == token
            &&& address(token).skip((before.len() + token.len()) as int) == behind
        }),
{
    let before = "https://api.telegram.org/bot"@;
    let behind = "/sendMessage"@;
    assert(address(token).take(before.len() as int) =~= before);
    assert(address(token).subrange(before.len() as int, (before.len() + token.len()) as int)
        =~= token);
    assert(address(token).skip((before.len() + token.len()) as int) =~= behind);
}

} // verus!
