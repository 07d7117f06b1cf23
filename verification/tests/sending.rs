use kotlin_releases_bot::message::escape_html;
use kotlin_releases_bot::telegram::request_members;
use kotlin_releases_bot::{
    classify, describe, format_message, is_release, refusal, reply_outcome, request_body, send_url, settle, stamp, succeeded,
    Entry, Feed, Outcome, Target, BLOG_URL, RELEASES_URL,
};

fn entry(id: &str, title: &str, link: &str) -> Entry {
    Entry { id: id.to_string(), title: title.to_string(), link: link.to_string() }
}

#[test]
fn a_message_is_its_kind_in_bold_and_its_title_as_a_link() {
    assert_eq!(
        format_message(Feed::Releases, &entry("v2.4.10", "Kotlin 2.4.10", "https://x/?a=1&b=2")),
        "<b>Kotlin release</b>\n<a href=\"https://x/?a=1&amp;b=2\">Kotlin 2.4.10</a>"
    );
    assert_eq!(
        format_message(Feed::Releases, &entry("v2.4.10-RC", "<>", "l")),
        "<b>Kotlin release candidate</b>\n<a href=\"l\">&lt;&gt;</a>"
    );
    assert_eq!(
        format_message(Feed::Blog, &entry("post-RC", "", "")),
        "<b>Kotlin blog</b>\n<a href=\"\"></a>"
    );
}

#[test]
fn three_characters_are_escaped_and_no_others() {
    assert_eq!(escape_html("a & b < c > d \" ' \u{e9}"), "a &amp; b &lt; c &gt; d \" ' \u{e9}");
    assert_eq!(escape_html("&lt;"), "&amp;lt;");
    assert_eq!(escape_html(""), "");
}

#[test]
fn escaped_text_holds_no_markup_and_loses_nothing() {
    let texts = ["<", "&lt;", "&amp;lt;", "<b>&</b>", ">", "&gt;", ""];
    for a in texts {
        let escaped = escape_html(a);
        assert!(!escaped.contains('<') && !escaped.contains('>'));
        for b in texts {
            assert_eq!(escaped == escape_html(b), a == b);
        }
    }
}

#[test]
fn a_reply_proves_what_its_status_and_envelope_say() {
    for status in [0, 199, 300, 400, 429, 499, 600, u16::MAX] {
        assert!(!succeeded(status));
        assert_eq!(settle(status, Some(false), None), Outcome::Rejected);
        assert_eq!(settle(status, Some(false), Some(0)), Outcome::RetryAfter(0));
        assert_eq!(settle(status, Some(true), Some(5)), Outcome::Unknown);
        assert_eq!(settle(status, None, Some(5)), Outcome::Unknown);
    }
    for status in [500, 502, 599] {
        assert!(!succeeded(status));
        for ok in [None, Some(false), Some(true)] {
            assert_eq!(settle(status, ok, None), Outcome::Unknown);
            assert_eq!(settle(status, ok, Some(5)), Outcome::Unknown);
        }
    }
    for status in [200, 204, 299] {
        assert!(succeeded(status));
        assert_eq!(settle(status, Some(false), Some(5)), Outcome::Sent);
    }
}

#[test]
fn anything_but_a_false_ok_leaves_the_delivery_unknown() {
    for body in [
        "", "[]", "false", "{}", "{\"ok\":true}", "{\"ok\":\"false\"}", "{\"ok\":0}", "{\"ok\":null}",
        "{\"ok\":false", "{\"ok\":false} x", "{\"result\":{\"ok\":false}}", "{\"OK\":false}",
    ] {
        assert_eq!(classify(400, body), Outcome::Unknown, "{body}");
    }
    assert_eq!(classify(499, "{\"ok\":false}"), Outcome::Rejected);
    assert_eq!(classify(600, "{\"ok\":false}"), Outcome::Rejected);
    assert_eq!(classify(200, "not json"), Outcome::Sent);
    assert_eq!(classify(299, "{\"ok\":false}"), Outcome::Sent);
    assert_eq!(classify(300, "{\"ok\":false}"), Outcome::Rejected);
}

#[test]
fn only_a_whole_number_of_seconds_is_a_retry_hint() {
    let classified = |hint: &str| classify(429, &format!("{{\"ok\":false,\"parameters\":{hint}}}"));
    assert_eq!(classified("{\"retry_after\":0}"), Outcome::RetryAfter(0));
    assert_eq!(classified("{\"retry_after\":18446744073709551615}"), Outcome::RetryAfter(u64::MAX));
    for hint in [
        "{\"retry_after\":-1}", "{\"retry_after\":1.5}", "{\"retry_after\":\"10\"}",
        "{\"retry_after\":null}", "{\"retry\":10}", "{}", "[]", "null", "10",
    ] {
        assert_eq!(classified(hint), Outcome::Rejected, "{hint}");
    }
    assert_eq!(classify(429, "{\"ok\":false,\"retry_after\":10}"), Outcome::Rejected);
}

#[test]
fn a_request_carries_the_chat_the_text_and_the_topic_if_there_is_one() {
    let mut target = Target { key: "1:7".to_string(), chat_id: "1".to_string(), thread_id: None };
    let read = |target: &Target| {
        serde_json::from_str::<serde_json::Value>(&request_body(target, "<b>\"x\"</b>\n")).unwrap()
    };
    let plain = read(&target);
    assert_eq!(plain.as_object().unwrap().len(), 3);
    assert_eq!(plain["chat_id"], "1");
    assert_eq!(plain["text"], "<b>\"x\"</b>\n");
    assert_eq!(plain["parse_mode"], "HTML");

    target.thread_id = Some("7".to_string());
    let topic = read(&target);
    assert_eq!(topic.as_object().unwrap().len(), 4);
    assert_eq!(topic["message_thread_id"], "7");
    assert_eq!(topic["chat_id"], "1");

    let pair = |name: &str, value: &str| (name.to_string(), value.to_string());
    assert_eq!(
        request_members(&target, "t"),
        vec![
            pair("chat_id", "1"),
            pair("text", "t"),
            pair("parse_mode", "HTML"),
            pair("message_thread_id", "7"),
        ]
    );
}

#[test]
fn requests_go_to_the_token_s_own_address() {
    assert_eq!(send_url("TOKEN"), "https://api.telegram.org/botTOKEN/sendMessage");
}

#[test]
fn a_feed_is_read_only_where_it_was_answered_with_success() {
    assert_eq!(refusal(200), None);
    assert_eq!(refusal(299), None);
    assert_eq!(refusal(199), Some("feed 199".to_string()));
    assert_eq!(refusal(304), Some("feed 304".to_string()));
    assert_eq!(refusal(503), Some("feed 503".to_string()));
    assert_eq!(refusal(0), Some("feed 0".to_string()));
    assert_eq!(refusal(65535), Some("feed 65535".to_string()));
}

#[test]
fn each_feed_has_its_own_address_setting_and_keys() {
    assert_eq!(Feed::Releases.url(), RELEASES_URL);
    assert_eq!(Feed::Blog.url(), BLOG_URL);
    assert_eq!(RELEASES_URL, "https://api.github.com/repos/JetBrains/kotlin/releases?per_page=10");
    assert_eq!(BLOG_URL, "https://blog.jetbrains.com/kotlin/feed/");
    assert_eq!(Feed::Releases.setting(), "TARGETS");
    assert_eq!(Feed::Blog.setting(), "BLOG_TARGETS");
    assert_eq!(Feed::Releases.key_prefix(), "seen:release");
    assert_eq!(Feed::Blog.key_prefix(), "seen:blog");
    assert_eq!(Feed::Releases.record_key("222:7"), "seen:release:222:7");
    assert_eq!(Feed::Blog.record_key("222:7"), "seen:blog:222:7");
    assert_eq!(Feed::Blog.unreadable("feed 503"), "BLOG_TARGETS: feed unreadable: feed 503");
    assert_eq!(Feed::Releases.unreadable("gone"), "TARGETS: feed unreadable: gone");
}

#[test]
fn the_page_describes_the_bot_and_names_its_commit() {
    assert_eq!(
        describe("abc1234"),
        "kotlin-releases-bot\n\n\
         Announces Kotlin releases and blog posts to Telegram.\n\n\
         releases  github api, newest published first\n\
         \x20         keeps vX.Y.Z and vX.Y.Z-RCn, drops betas and build-*-dev-*\n\
         blog      https://blog.jetbrains.com/kotlin/feed/\n\
         \x20         every post\n\n\
         Each feed has its own destination list and its own records.\n\
         schedule  every 15 minutes\n\
         commit    abc1234\n\
         code      https://github.com/CommanderTvis/kotlin-releases-bot/commit/abc1234\n\n\
         There is no API here. The bot runs on a cron trigger and only sends.\n"
    );
}

#[test]
fn a_build_with_changes_says_so() {
    let some = |s: &str| Some(s.to_string());
    assert_eq!(stamp(some("abc1234\n"), some("")), "abc1234");
    assert_eq!(stamp(some("abc1234\n"), some("\n")), "abc1234");
    assert_eq!(stamp(some("abc1234\n"), some(" M src/lib.rs\n")), "abc1234-dirty");
    assert_eq!(stamp(some("abc1234"), None), "abc1234");
    assert_eq!(stamp(None, None), "unknown");
    assert_eq!(stamp(None, some("?? x")), "unknown-dirty");
}

#[test]
fn candidates_are_called_candidates_and_finals_are_not() {
    for (tag, kind) in [
        ("v2.4.20", "<b>Kotlin release</b>"),
        ("v2.4.20-RC", "<b>Kotlin release candidate</b>"),
        ("v2.4.20-RC3", "<b>Kotlin release candidate</b>"),
    ] {
        assert!(is_release(tag));
        assert!(format_message(Feed::Releases, &entry(tag, "t", "l")).starts_with(kind));
    }
}

#[test]
fn a_server_error_is_unknown_whatever_its_body() {
    for status in [500, 502, 503, 599] {
        for body in [
            "",
            "<html>Bad Gateway</html>",
            "{\"ok\":false,\"error_code\":500}",
            "{\"ok\":false,\"parameters\":{\"retry_after\":10}}",
        ] {
            assert_eq!(classify(status, body), Outcome::Unknown, "{status} {body}");
        }
    }
}

#[test]
fn a_dropped_connection_is_unknown_and_a_reply_is_classified() {
    let reply = |status: u16, body: &str| reply_outcome(Some((status, body.to_string())));
    assert_eq!(reply_outcome(None), Outcome::Unknown);
    assert_eq!(reply(200, ""), Outcome::Sent);
    assert_eq!(reply(403, "{\"ok\":false}"), Outcome::Rejected);
    assert_eq!(reply(403, ""), Outcome::Unknown);
    assert_eq!(reply(502, "{\"ok\":false}"), Outcome::Unknown);
    assert_eq!(reply(429, "{\"ok\":false,\"parameters\":{\"retry_after\":3}}"), Outcome::RetryAfter(3));
}

#[test]
fn a_body_is_read_as_it_stands() {
    let body = "{\"$serde_json::private::RawValue\":\"{\\\"ok\\\":false}\"}";
    assert_eq!(classify(403, body), Outcome::Unknown);
    let body = "{\"$serde_json::private::RawValue\":\"not json\",\"ok\":false}";
    assert_eq!(classify(403, body), Outcome::Rejected);
    // The last of two members with one name counts.
    assert_eq!(classify(403, "{\"ok\":true,\"ok\":false}"), Outcome::Rejected);
    assert_eq!(classify(403, "{\"ok\":false,\"ok\":true}"), Outcome::Unknown);
}
