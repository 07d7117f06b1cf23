use kotlin_releases_bot::feeds::select;
use kotlin_releases_bot::json::{read_items, read_members, repeated, value_of};
use kotlin_releases_bot::releases::{assemble, read_release, release_entries, ApiRelease};
use kotlin_releases_bot::rss::Collector;
use kotlin_releases_bot::text;
use kotlin_releases_bot::xml::{entity, Token};
use kotlin_releases_bot::{
    announcements, decode_record, encode_record, is_release, parse_releases, parse_rss,
    parse_targets, read_record, subscribers, Entry, Feed, Target,
};

fn entry(id: &str, title: &str, link: &str) -> Entry {
    Entry { id: id.to_string(), title: title.to_string(), link: link.to_string() }
}

fn target(key: &str, chat_id: &str, thread_id: Option<&str>) -> Target {
    Target {
        key: key.to_string(),
        chat_id: chat_id.to_string(),
        thread_id: thread_id.map(str::to_string),
    }
}

#[test]
fn a_release_without_a_name_is_titled_by_its_tag() {
    let expected = vec![entry("v1.0.0", "v1.0.0", "u")];
    assert_eq!(parse_releases(r#"[{"tag_name":"v1.0.0","html_url":"u"}]"#), expected);
    assert_eq!(parse_releases(r#"[{"tag_name":"v1.0.0","name":null,"html_url":"u"}]"#), expected);
    assert_eq!(parse_releases(r#"[{"name":"","html_url":"u","tag_name":"v1.0.0"}]"#), expected);
    assert_eq!(
        parse_releases(r#" [ { "tag_name" : "v1.0.0" , "name" : " " , "html_url" : "u" } ] "#),
        vec![entry("v1.0.0", " ", "u")]
    );
}

#[test]
fn one_malformed_release_spoils_the_list() {
    let good = r#"{"tag_name":"v1.0.0","name":"One","html_url":"u"}"#;
    assert_eq!(parse_releases(&format!("[{good}]")), vec![entry("v1.0.0", "One", "u")]);
    for bad in [
        r#"{"name":"One","html_url":"u"}"#,
        r#"{"tag_name":"v1.0.0","name":"One"}"#,
        r#"{"tag_name":null,"name":"One","html_url":"u"}"#,
        r#"{"tag_name":"v1.0.0","name":5,"html_url":"u"}"#,
        r#"{"tag_name":"v1.0.0","name":"One","html_url":["u"]}"#,
        r#"{"tag_name":"v1.0.0","name":"\ud800","html_url":"u"}"#,
        "null",
        "5",
        "{}",
        r#"["v1.0.0","One"]"#,
        r#"["v1.0.0","One","u","more"]"#,
    ] {
        assert!(parse_releases(&format!("[{good},{bad}]")).is_empty(), "{bad}");
    }
    assert!(parse_releases(&format!("[{good},]")).is_empty());
    assert!(parse_releases(&format!("[{good}] x")).is_empty());
    assert!(parse_releases("").is_empty());
}

#[test]
fn a_release_may_be_a_list_of_its_three_fields() {
    assert_eq!(
        parse_releases(r#"[["v1.0.0","One","u"],["v2.0.0",null,"w"]]"#),
        vec![entry("v1.0.0", "One", "u"), entry("v2.0.0", "v2.0.0", "w")]
    );
}

#[test]
fn names_and_values_are_unescaped() {
    assert_eq!(
        parse_releases(r#"[{"tag_name":"v1.0.0","name":"Kotlin \"1\"","html_url":"a\/b"}]"#),
        vec![entry("v1.0.0", "Kotlin \"1\"", "a/b")]
    );
}

#[test]
fn a_release_is_put_together_from_its_fields() {
    let some = |s: &str| Some(Some(s.to_string()));
    let full = ApiRelease {
        tag_name: "v1.0.0".to_string(),
        name: Some("One".to_string()),
        html_url: "u".to_string(),
    };
    assert_eq!(assemble(some("v1.0.0"), some("One"), some("u")), Some(full));
    assert_eq!(assemble(Some(None), some("One"), some("u")), None);
    assert_eq!(assemble(some("v1.0.0"), None, some("u")), None);
    assert_eq!(assemble(some("v1.0.0"), Some(None), None), None);
    let bare = assemble(some("v1.0.0"), Some(None), some("u")).unwrap();
    assert_eq!(bare.name, None);
    assert_eq!(release_entries(vec![bare]), vec![entry("v1.0.0", "v1.0.0", "u")]);
    assert_eq!(read_release("[]"), None);
    assert_eq!(read_release("{\"tag_name\":\"t\",\"html_url\":\"u\"}").unwrap().tag_name, "t");
}

#[test]
fn tags_are_versions_of_three_numbers_and_maybe_a_candidate() {
    for tag in ["v0.0.0", "v01.002.0003", "v1.2.3-RC", "v1.2.3-RC0", "v1.2.3-RC12"] {
        assert!(is_release(tag), "{tag} should be a release");
    }
    for tag in [
        "", "v", "v1", "v1.2.", "v1..3", "v.2.3", "v1.2.3.4", "1.2.3", "V1.2.3", "vv1.2.3",
        "v1.2.3-", "v1.2.3-R", "v1.2.3-rc1", "v1.2.3-RC1-RC2", "v1.2.3-RC1 ", " v1.2.3",
        "v1.2.x", "v1.2.3RC1", "v1.2-RC1.3", "v1.2.\u{663}", "v-RC", "build-v1.2.3",
        "v1.2.3-Beta", "v1.2.3-Beta-RC1",
    ] {
        assert!(!is_release(tag), "{tag} should not be a release");
    }
}

#[test]
fn only_the_releases_feed_is_filtered() {
    let entries = || vec![entry("v1.0.0", "a", "l"), entry("v1.0.0-Beta1", "b", "l"), entry("v2.0.0-RC", "c", "l")];
    let kept: Vec<String> = select(Feed::Releases, entries()).into_iter().map(|e| e.id).collect();
    assert_eq!(kept, ["v1.0.0", "v2.0.0-RC"]);
    assert_eq!(select(Feed::Blog, entries()), entries());
    assert_eq!(
        announcements(Feed::Releases, r#"[["v1.0.0-Beta1","b","l"],["v1.0.0","a","l"]]"#),
        vec![entry("v1.0.0", "a", "l")]
    );
    assert_eq!(
        announcements(Feed::Blog, "<item><title>t</title><link>l</link></item>"),
        vec![entry("l", "t", "l")]
    );
    assert!(announcements(Feed::Blog, "[]").is_empty());
}

#[test]
fn the_link_stands_in_for_a_missing_guid() {
    let xml = "<rss><item><title> A </title><link>\n l \n</link></item>\
               <item><title>B</title><link>m</link><guid>  </guid></item>\
               <item><title>C</title><link>n</link><guid> g </guid></item></rss>";
    assert_eq!(
        parse_rss(xml),
        vec![entry("l", "A", "l"), entry("m", "B", "m"), entry("g", "C", "n")]
    );
}

#[test]
fn an_item_without_a_title_or_a_link_is_no_entry() {
    let xml = "<rss><item><link>l</link><guid>1</guid></item>\
               <item><title>T</title><guid>2</guid></item>\
               <item><title>T</title><link/><guid>3</guid></item>\
               <item><title> </title><link>l</link></item>\
               <item/></rss>";
    assert!(parse_rss(xml).is_empty());
    assert!(parse_rss("").is_empty());
    assert!(parse_rss("not a feed").is_empty());
}

#[test]
fn references_and_sections_are_part_of_the_text() {
    let xml = "<item><title>&lt;A&gt; &amp; &quot;B&quot; &apos;C&apos; &#65;&#x42;&nbsp;&#0;!</title>\
               <link>a<![CDATA[?b=1&c=2]]></link></item>";
    assert_eq!(
        parse_rss(xml),
        vec![entry("a?b=1&c=2", "<A> & \"B\" 'C' AB!", "a?b=1&c=2")]
    );
}

#[test]
fn line_ends_are_normalised() {
    let xml = "<item><title>A\r\nB\rC</title><link>l</link></item>";
    assert_eq!(parse_rss(xml), vec![entry("l", "A\nB\nC", "l")]);
}

#[test]
fn text_outside_the_fields_does_not_leak() {
    let xml = "<channel><title>Channel</title><link>channel</link>loose\
               <item>loose<title>T</title>loose &amp; <![CDATA[<title>x</title>]]>\
               <body>body</body><link>l</link></item>\
               <title>after</title></channel>";
    assert_eq!(parse_rss(xml), vec![entry("l", "T", "l")]);
}

#[test]
fn what_stands_before_an_error_is_kept() {
    let first = "<rss><item><title>A</title><link>a</link></item>";
    let second = "<item><title>B</title><link>b</link></item>";
    assert_eq!(parse_rss(&format!("{first}</oops>{second}</rss>")), vec![entry("a", "A", "a")]);
    assert_eq!(parse_rss(&format!("{first}<item></title>{second}")), vec![entry("a", "A", "a")]);
    assert_eq!(parse_rss(&format!("{first}{second}")).len(), 2);
}

#[test]
fn references_resolve_by_name_or_by_number() {
    for (name, text) in [
        ("amp", "&"), ("lt", "<"), ("gt", ">"), ("quot", "\""), ("apos", "'"),
        ("#038", "&"), ("#38", "&"), ("#x26", "&"), ("#x1F600", "\u{1f600}"), ("#xfF", "\u{ff}"),
        ("nbsp", ""), ("AMP", ""), ("", ""), ("#", ""), ("#x", ""), ("#X26", ""), ("#0", ""),
        ("#+38", ""), ("#-38", ""), ("#xD800", ""), ("#xDFFF", ""), ("#x10FFFF", "\u{10ffff}"),
        ("#x110000", ""), ("#99999999999999999999", ""), ("#3a", ""), ("38", ""),
    ] {
        assert_eq!(entity(name), text, "&{name};");
    }
}

#[test]
fn a_collector_reads_tokens_one_by_one() {
    let name = |s: &str| s.to_string();
    let mut collector = Collector::new();
    for token in [
        Token::Start(name("title")),
        Token::Text(name("ignored")),
        Token::End(name("title")),
        Token::Start(name("item")),
        Token::Start(name("title")),
        Token::Text(name("T")),
        Token::Reference(name("amp")),
        Token::CData(name("<b>")),
        Token::Other,
        Token::End(name("title")),
        Token::Text(name("ignored")),
        Token::Start(name("link")),
        Token::Text(name(" l ")),
        Token::End(name("link")),
        Token::End(name("item")),
    ] {
        collector.accept(token);
    }
    assert_eq!(collector.into_entries(), vec![entry("l", "T&<b>", "l")]);
}

#[test]
fn an_open_item_is_no_entry_yet() {
    let whole = "<item><title>A</title><link>a</link></item><item><title>B</title><link>b</link></item>";
    assert_eq!(parse_rss(whole).len(), 2);
    assert_eq!(parse_rss(&whole[..whole.len() - 7]), vec![entry("a", "A", "a")]);
}

#[test]
fn destinations_are_split_at_the_first_colon_and_empty_ones_dropped() {
    assert_eq!(
        parse_targets(",, 5 ,:7, a:b:c ,\u{a0}-1:\u{3000},"),
        vec![
            target("5", "5", None),
            target(":7", "", Some("7")),
            target("a:b:c", "a", Some("b:c")),
            target("-1:", "-1", Some("")),
        ]
    );
    assert!(parse_targets(" , ,\t").is_empty());
    assert_eq!(parse_targets("1,1").len(), 2);
}

#[test]
fn a_destination_written_on_its_own_is_read_as_itself() {
    for key in ["111", "222:7", "-1001234567890", "a b"] {
        let targets = parse_targets(key);
        assert_eq!(targets.len(), 1);
        assert_eq!(targets[0].key, key);
    }
}

#[test]
fn a_list_that_is_not_set_subscribes_nobody() {
    assert!(subscribers(None).is_empty());
    assert!(subscribers(Some(String::new())).is_empty());
    assert_eq!(subscribers(Some("1:2".to_string())), vec![target("1:2", "1", Some("2"))]);
}

#[test]
fn records_come_back_as_they_were_stored() {
    let tags: Vec<String> =
        ["", "a\"b", "back\\slash", "line\nend", "\u{1}", "\u{e9}\u{1f600}", "https://x/?a=1&b=2"]
            .iter()
            .map(|s| s.to_string())
            .collect();
    assert_eq!(decode_record(&encode_record(&tags)), Ok(tags.clone()));
    assert_eq!(read_record(Some(encode_record(&tags))), Ok(Some(tags)));
    assert_eq!(encode_record(&[]), "[]");
    assert_eq!(read_record(Some("[]".to_string())), Ok(Some(Vec::new())));
}

#[test]
fn no_record_is_not_an_unreadable_record() {
    assert_eq!(read_record(None), Ok(None));
    for raw in ["", "{}", "[1]", "[\"a\"", "[\"a\"] x", "null", "[null]"] {
        let message = decode_record(raw).unwrap_err();
        assert!(!message.is_empty());
        assert_eq!(read_record(Some(raw.to_string())), Err(message));
    }
    assert_eq!(
        decode_record("[1]").unwrap_err(),
        "invalid type: integer `1`, expected a string at line 1 column 2"
    );
}

#[test]
fn text_is_trimmed_split_and_searched_by_characters() {
    assert_eq!(text::trim("\u{2003} a b \u{85}\r\n"), "a b");
    assert_eq!(text::trim(" \t"), "");
    assert_eq!(text::trim("\u{200b}a"), "\u{200b}a");
    assert_eq!(text::split("a,,b", ','), ["a", "", "b"]);
    assert_eq!(text::split("", ','), [""]);
    assert_eq!(text::split("\u{e9};\u{1f600}", ';'), ["\u{e9}", "\u{1f600}"]);
    assert!(text::contains("v1-RC", "-RC"));
    assert!(text::contains("abab", ""));
    assert!(!text::contains("-R-C", "-RC"));
    assert!(!text::contains("", "a"));
    assert!(text::same("a", "a") && !text::same("a", "A"));
    assert_eq!(text::slice(&text::chars("h\u{e9}llo"), 1, 3), "\u{e9}l");
    assert_eq!(text::find(&text::chars("a:b:c"), ':'), 1);
    assert_eq!(text::find(&text::chars("abc"), ':'), 3);
    assert_eq!(text::number(0), "0");
    assert_eq!(text::number(1005), "1005");
    assert_eq!(text::number(u64::MAX), "18446744073709551615");
}

#[test]
fn a_renamed_post_keeps_its_id() {
    let post = |title: &str, link: &str| {
        format!("<item><title>{title}</title><link>{link}</link><guid>g</guid></item>")
    };
    assert_eq!(parse_rss(&post("A", "a"))[0].id, "g");
    assert_eq!(parse_rss(&post("B", "b"))[0].id, "g");
}

#[test]
fn a_release_in_which_a_field_comes_twice_spoils_the_list() {
    for bad in [
        r#"{"tag_name":"a","tag_name":"v1.0.0","html_url":"u"}"#,
        r#"{"tag_name":"a","html_url":"u","name":null,"name":"n"}"#,
        r#"{"html_url":"u","tag_name":"a","html_url":"u"}"#,
        r#" { "tag_name" : "a" , "html_url" : "u" , "x" : [1, {"y": "}"}] , "tag_name" : "a" } "#,
        r#"{"tag_name":"a","html_url":"u","tag\u005fname":"a"}"#,
        r#"{"tag_name":"a","html_url":"u","n":-1.5e3,"b":true,"z":null,"e":{},"name":"n","name":"n"}"#,
    ] {
        assert_eq!(read_release(bad), None, "{bad}");
        let list = format!("[{{\"tag_name\":\"v2.0.0\",\"html_url\":\"w\"}},{bad}]");
        assert!(parse_releases(&list).is_empty(), "{bad}");
    }
}

#[test]
fn other_fields_may_come_twice() {
    let twice = r#"[{"x":1,"tag_name":"v1.0.0","x":{"tag_name":"no","tag_name":"no"},"html_url":"u","":0,"":1}]"#;
    assert_eq!(parse_releases(twice), vec![entry("v1.0.0", "v1.0.0", "u")]);
}

#[test]
fn the_members_of_an_object_are_listed_as_often_as_they_come() {
    let listed = |text: &'static str| -> Option<Vec<(String, &'static str)>> { read_members(text) };
    let member = |name: &str, value: &'static str| (name.to_string(), value);
    assert_eq!(listed("{}"), Some(vec![]));
    assert_eq!(listed(" { } "), Some(vec![]));
    assert_eq!(listed("{\"a\":1}"), Some(vec![member("a", "1")]));
    assert_eq!(
        listed("\t{ \"a\" :\n1 ,\r\n\"\u{e9}\\u0062\": [\"c\", {\"d\": 2}] , \"a\":\"\u{1f600},}\" }"),
        Some(vec![
            member("a", "\n1"),
            member("\u{e9}b", " [\"c\", {\"d\": 2}]"),
            member("a", "\"\u{1f600},}\""),
        ])
    );
    for text in ["[]", "\u{e9}", "", "null", "{\"a\"}", "{\"a\":1,}", "{\"a\":1} x", "{\"\\ud800\":1}", "{1:2}"] {
        assert_eq!(listed(text), None, "{text}");
    }
    let members = listed("{\"a\":1,\"b\":2,\"a\":3}").unwrap();
    assert!(repeated(&members, "a") && !repeated(&members, "b") && !repeated(&members, "c"));
    assert!(!repeated(&Vec::new(), "a"));
}

#[test]
fn the_elements_of_an_array_are_listed_in_order() {
    assert_eq!(read_items("[]"), Some(vec![]));
    assert_eq!(read_items(" [ \n] "), Some(vec![]));
    assert_eq!(
        read_items("[1,\"a,]\",[2,[3]],{\"b\":[4]},null,-1.5e3,true]"),
        Some(vec!["1", "\"a,]\"", "[2,[3]]", "{\"b\":[4]}", "null", "-1.5e3", "true"])
    );
    assert_eq!(read_items("[1 , \u{9}\"\u{e9}\"]"), Some(vec!["1", " \u{9}\"\u{e9}\""]));
    for text in ["{}", "", "null", "[1", "[1,]", "[1] x", "[1 2]", "[tru]"] {
        assert_eq!(read_items(text), None, "{text}");
    }
}

#[test]
fn a_member_is_looked_up_by_its_name() {
    let members = vec![("a".to_string(), "1"), ("b".to_string(), "2"), ("a".to_string(), "3")];
    assert_eq!(value_of(&members, "a"), Some("1"));
    assert_eq!(value_of(&members, "b"), Some("2"));
    assert_eq!(value_of(&members, "c"), None);
}

#[test]
fn an_ascii_character_is_split_off() {
    assert_eq!(text::split_ascii("a\u{e9}"), Some(('a', "\u{e9}")));
    assert_eq!(text::split_ascii("\u{7f}"), Some(('\u{7f}', "")));
    assert_eq!(text::split_ascii("\u{80}a"), None);
    assert_eq!(text::split_ascii("\u{1f600}"), None);
    assert_eq!(text::split_ascii(""), None);
}

#[test]
fn lists_joined_with_a_comma_are_read_as_their_parts() {
    for (a, b) in [("1,2:7", "3"), ("", "3"), ("1", ""), (" 1 ", " 2 , "), (",", ",,4")] {
        let mut parts = parse_targets(a);
        parts.extend(parse_targets(b));
        assert_eq!(parse_targets(&format!("{a},{b}")), parts);
    }
}

#[test]
fn the_entries_of_two_runs_of_items_add_up() {
    let one = "<item><title>A</title><link>a</link></item><item><title>B</title></item>";
    let two = "<title>x</title><item><link>c</link><title>C</title></item>";
    let mut both = parse_rss(one);
    both.extend(parse_rss(two));
    assert_eq!(both.len(), 2);
    assert_eq!(parse_rss(&format!("{one}{two}")), both);
}
