use std::collections::{HashMap, VecDeque};

use kotlin_releases_bot::record::{claim, recorded};
use kotlin_releases_bot::{
    parse_targets, Action, Entry, Event, Feed, Outcome, Pass, Target, MAX_RETRY_WAIT, SEEN_CAP,
};

fn entry(id: &str) -> Entry {
    Entry { id: id.to_string(), title: format!("title {id}"), link: format!("link/{id}") }
}

fn entries(ids: &[&str]) -> Vec<Entry> {
    ids.iter().map(|id| entry(id)).collect()
}

fn strings(list: &[&str]) -> Vec<String> {
    list.iter().map(|s| s.to_string()).collect()
}

fn numbered(prefix: &str, count: usize) -> Vec<String> {
    (0..count).map(|n| format!("{prefix}{n}")).collect()
}

fn text(id: &str) -> String {
    format!("<b>Kotlin blog</b>\n<a href=\"link/{id}\">title {id}</a>")
}

fn get(key: &str) -> Action {
    Action::Get { key: format!("seen:blog:{key}") }
}

fn put(key: &str, record: &[&str]) -> Action {
    Action::Put { key: format!("seen:blog:{key}"), record: strings(record) }
}

fn send(target: &str, id: &str) -> Action {
    Action::Send { target: parse_targets(target).remove(0), text: text(id) }
}

fn seen(record: &[&str]) -> Event {
    Event::Record(Ok(Some(strings(record))))
}

fn stored() -> Event {
    Event::Stored(Ok(()))
}

fn down() -> Event {
    Event::Stored(Err("down".to_string()))
}

fn delivered(outcome: Outcome) -> Event {
    Event::Delivered(outcome)
}

/// Answers the actions of a pass with `events`, and returns the actions with
/// the one still due, and the lines logged.
fn play(feed_shows: &[&str], targets: &str, events: Vec<Event>) -> (Vec<Action>, Vec<String>) {
    let mut pass = Pass::begin(Feed::Blog, entries(feed_shows), parse_targets(targets));
    let mut actions = Vec::new();
    for event in events {
        actions.push(pass.action());
        pass = pass.advance(event);
    }
    actions.push(pass.action());
    (actions, pass.into_logs())
}

#[test]
fn a_pass_with_nothing_to_announce_or_nobody_to_tell_is_over_at_once() {
    assert_eq!(play(&[], "1,2", vec![]), (vec![Action::Done], vec![]));
    assert_eq!(play(&["a"], "", vec![]), (vec![Action::Done], vec![]));
    assert_eq!(Pass::start(Feed::Releases, "not json", parse_targets("1")).action(), Action::Done);
}

#[test]
fn an_unreadable_record_leaves_its_destination_alone() {
    let (actions, logs) = play(
        &["a"],
        "1,2:7",
        vec![Event::Record(Err("bad record".to_string())), seen(&["a"])],
    );
    assert_eq!(actions, vec![get("1"), get("2:7"), Action::Done]);
    assert_eq!(logs, ["target 1: record unreadable: bad record"]);
}

#[test]
fn a_new_destination_is_seeded_with_the_whole_feed() {
    let (actions, logs) =
        play(&["b", "a"], "1,2", vec![Event::Record(Ok(None)), stored(), Event::Record(Ok(None)), down()]);
    assert_eq!(
        actions,
        vec![get("1"), put("1", &["b", "a"]), get("2"), put("2", &["b", "a"]), Action::Done]
    );
    assert_eq!(logs, ["target 2: seeding failed: down"]);
}

#[test]
fn a_seeded_record_holds_everything_the_feed_shows() {
    let ids = numbered("id", SEEN_CAP + 10);
    let shown: Vec<&str> = ids.iter().map(String::as_str).collect();
    let (actions, _) = play(&shown, "1", vec![Event::Record(Ok(None)), stored()]);
    assert_eq!(actions[1], put("1", &shown));
    // Nothing of it is fresh afterwards.
    let (actions, _) = play(&shown, "1", vec![seen(&shown)]);
    assert_eq!(actions, vec![get("1"), Action::Done]);
}

#[test]
fn every_fresh_entry_is_recorded_and_then_sent_oldest_first() {
    let (actions, logs) = play(
        &["d", "c", "b", "a"],
        "1:7",
        vec![
            seen(&["b"]),
            stored(),
            delivered(Outcome::Sent),
            stored(),
            delivered(Outcome::Sent),
            stored(),
            delivered(Outcome::Sent),
        ],
    );
    assert_eq!(
        actions,
        vec![
            get("1:7"),
            put("1:7", &["b", "a"]),
            send("1:7", "a"),
            put("1:7", &["b", "a", "c"]),
            send("1:7", "c"),
            put("1:7", &["b", "a", "c", "d"]),
            send("1:7", "d"),
            Action::Done,
        ]
    );
    assert!(logs.is_empty());
}

#[test]
fn what_cannot_be_claimed_is_not_sent() {
    let (actions, logs) = play(&["b", "a"], "1,2", vec![seen(&[]), down()]);
    assert_eq!(actions, vec![get("1"), put("1", &["a"]), get("2")]);
    assert_eq!(logs, ["target 1: a not claimed: down"]);
}

#[test]
fn a_refused_entry_is_given_back_and_the_rest_left_for_the_next_tick() {
    let events = |last: Event| vec![seen(&["z"]), stored(), delivered(Outcome::Rejected), last];
    let (actions, logs) = play(&["b", "a"], "1,2", events(stored()));
    assert_eq!(
        actions,
        vec![get("1"), put("1", &["z", "a"]), send("1", "a"), put("1", &["z"]), get("2")]
    );
    assert_eq!(logs, ["target 1: a rejected, will retry next tick"]);

    let (actions, logs) = play(&["b", "a"], "1,2", events(down()));
    assert_eq!(actions[4], get("2"));
    assert_eq!(logs, ["target 1: a rejected but the claim is stuck: down"]);
}

#[test]
fn an_unknown_delivery_keeps_its_claim() {
    let (actions, logs) = play(&["b", "a"], "1", vec![seen(&[]), stored(), delivered(Outcome::Unknown)]);
    assert_eq!(actions, vec![get("1"), put("1", &["a"]), send("1", "a"), Action::Done]);
    assert_eq!(logs, ["target 1: a delivery unknown, SKIPPED to avoid a duplicate"]);
    // The next pass goes on with the entry after it.
    let (actions, _) = play(&["b", "a"], "1", vec![seen(&["a"])]);
    assert_eq!(actions[1], put("1", &["a", "b"]));
}

#[test]
fn a_rate_limit_is_waited_out_once_per_entry() {
    let (actions, logs) = play(
        &["a"],
        "1",
        vec![
            seen(&[]),
            stored(),
            delivered(Outcome::RetryAfter(10)),
            Event::Waited,
            delivered(Outcome::RetryAfter(5)),
            stored(),
        ],
    );
    assert_eq!(
        actions,
        vec![
            get("1"),
            put("1", &["a"]),
            send("1", "a"),
            Action::Wait { seconds: 10 },
            send("1", "a"),
            put("1", &[]),
            Action::Done,
        ]
    );
    assert_eq!(
        logs,
        [
            "target 1: rate limited, waiting 10s for a",
            "target 1: a rejected, will retry next tick",
        ]
    );
}

#[test]
fn the_waits_of_a_pass_share_one_budget() {
    assert_eq!(MAX_RETRY_WAIT, 60);
    let (actions, _) = play(
        &["d", "c", "b", "a"],
        "1",
        vec![
            seen(&[]),
            stored(),
            delivered(Outcome::RetryAfter(59)),
            Event::Waited,
            delivered(Outcome::Sent),
            stored(),
            delivered(Outcome::RetryAfter(1)),
            Event::Waited,
            delivered(Outcome::Sent),
            stored(),
            delivered(Outcome::RetryAfter(0)),
            Event::Waited,
            delivered(Outcome::Sent),
            stored(),
            delivered(Outcome::RetryAfter(1)),
        ],
    );
    let waits: Vec<&Action> = actions.iter().filter(|a| matches!(a, Action::Wait { .. })).collect();
    assert_eq!(
        waits,
        [&Action::Wait { seconds: 59 }, &Action::Wait { seconds: 1 }, &Action::Wait { seconds: 0 }]
    );
    assert_eq!(actions.last(), Some(&put("1", &["a", "b", "c"])));

    let over = vec![seen(&[]), stored(), delivered(Outcome::RetryAfter(61))];
    assert_eq!(play(&["a"], "1", over).0[3], put("1", &[]));
    let huge = vec![seen(&[]), stored(), delivered(Outcome::RetryAfter(u64::MAX))];
    assert_eq!(play(&["a"], "1", huge).0[3], put("1", &[]));
}

#[test]
fn an_event_that_answers_nothing_changes_nothing() {
    let (actions, logs) = play(
        &["a"],
        "1",
        vec![
            stored(),
            Event::Waited,
            delivered(Outcome::Sent),
            seen(&[]),
            seen(&[]),
            delivered(Outcome::Unknown),
            stored(),
            stored(),
            delivered(Outcome::Sent),
            stored(),
        ],
    );
    assert_eq!(
        actions,
        vec![
            get("1"),
            get("1"),
            get("1"),
            get("1"),
            put("1", &["a"]),
            put("1", &["a"]),
            put("1", &["a"]),
            send("1", "a"),
            send("1", "a"),
            Action::Done,
            Action::Done,
        ]
    );
    assert!(logs.is_empty());
}

#[test]
fn a_full_record_loses_its_oldest_ids() {
    let full = numbered("old", SEEN_CAP);
    let shown: Vec<&str> = full.iter().map(String::as_str).collect();
    let (actions, _) =
        play(&["new"], "1", vec![seen(&shown), stored(), delivered(Outcome::Rejected)]);
    let mut claimed: Vec<&str> = shown[1..].to_vec();
    claimed.push("new");
    assert_eq!(actions[1], put("1", &claimed));
    assert_eq!(actions[3], put("1", &shown[1..]));

    let mut record = numbered("old", SEEN_CAP + 20);
    claim(&mut record, "new");
    assert_eq!(record.len(), SEEN_CAP);
    assert_eq!(record[0], "old21");
    assert_eq!(record[SEEN_CAP - 1], "new");
    assert!(recorded(&record, "new") && recorded(&record, "old21") && !recorded(&record, "old20"));
}

#[test]
fn a_claim_outlasts_as_many_others_as_there_is_room_for() {
    let mut record = Vec::new();
    claim(&mut record, "kept");
    for other in numbered("other", SEEN_CAP - 1) {
        claim(&mut record, &other);
    }
    assert_eq!(record.len(), SEEN_CAP);
    assert!(recorded(&record, "kept"));
    claim(&mut record, "one more");
    assert!(!recorded(&record, "kept"));
}

/// Carries passes out against a store in memory and scripted deliveries.
struct World {
    records: HashMap<String, Vec<String>>,
    script: VecDeque<Outcome>,
    actions: usize,
    gets: Vec<String>,
    sent: Vec<(Target, String)>,
}

impl World {
    fn new(script: &[Outcome]) -> World {
        World {
            records: HashMap::new(),
            script: script.iter().copied().collect(),
            actions: 0,
            gets: Vec::new(),
            sent: Vec::new(),
        }
    }

    fn run(&mut self, ids: &[String], targets: &str) {
        let shown: Vec<Entry> = ids.iter().map(|id| entry(id)).collect();
        let mut pass = Pass::begin(Feed::Blog, shown, parse_targets(targets));
        loop {
            let event = match pass.action() {
                Action::Get { key } => {
                    let record = self.records.get(&key).cloned();
                    self.gets.push(key);
                    Event::Record(Ok(record))
                }
                Action::Put { key, record } => {
                    self.records.insert(key, record);
                    Event::Stored(Ok(()))
                }
                Action::Send { target, text } => {
                    let outcome = self.script.pop_front().unwrap_or(Outcome::Sent);
                    if outcome == Outcome::Sent {
                        self.sent.push((target, text));
                    }
                    Event::Delivered(outcome)
                }
                Action::Wait { .. } => Event::Waited,
                Action::Done => return,
            };
            self.actions += 1;
            pass = pass.advance(event);
        }
    }
}

#[test]
fn nothing_is_sent_twice_over_many_passes() {
    let mut world = World::new(&[
        Outcome::Sent,
        Outcome::Rejected,
        Outcome::RetryAfter(20),
        Outcome::RetryAfter(20),
        Outcome::Unknown,
        Outcome::RetryAfter(30),
        Outcome::Sent,
        Outcome::RetryAfter(31),
    ]);
    let ids: Vec<String> = numbered("post", SEEN_CAP + 30).into_iter().rev().collect();
    let window = 10;
    let oldest = ids.len() - window;
    world.run(&ids[oldest..], "1,2:7");
    assert!(world.sent.is_empty(), "the first pass seeds");
    for start in (0..oldest).rev() {
        world.run(&ids[start..start + window], "1,2:7");
        world.run(&ids[start..start + window], "1,2:7");
    }
    for (i, delivery) in world.sent.iter().enumerate() {
        assert!(!world.sent[..i].contains(delivery), "{delivery:?} was sent twice");
    }
    // Every later post reached each of the two, but for the one delivery that
    // may have landed unacknowledged.
    assert_eq!(world.sent.len(), 2 * oldest - 1);
}

#[test]
fn a_pass_visits_every_destination_once_and_ends() {
    let mut world = World::new(&[Outcome::Rejected, Outcome::Unknown, Outcome::RetryAfter(99)]);
    let ids = numbered("post", 4);
    for key in ["1", "2", "3", "4"] {
        world.records.insert(format!("seen:blog:{key}"), Vec::new());
    }
    world.run(&ids, "1,2,3,4");
    assert_eq!(world.gets, ["seen:blog:1", "seen:blog:2", "seen:blog:3", "seen:blog:4"]);
    assert!(world.actions <= 4 * (5 * ids.len() + 2));
    assert_eq!(world.sent.len(), 4);
    assert!(world.sent.iter().all(|(target, _)| target.key == "4"));
}

#[test]
fn a_delivered_entry_stays_in_every_record_stored_after_it() {
    let ids: Vec<String> = numbered("post", SEEN_CAP).into_iter().rev().collect();
    let mut world = World::new(&[]);
    world.records.insert("seen:blog:1".to_string(), numbered("old", SEEN_CAP));
    world.run(&ids, "1");
    assert_eq!(world.sent.len(), SEEN_CAP);
    assert_eq!(world.records["seen:blog:1"], numbered("post", SEEN_CAP));
    world.run(&ids, "1");
    assert_eq!(world.sent.len(), SEEN_CAP);
}

#[test]
fn the_feeds_keep_their_records_apart() {
    for key in ["1", "2:7", ""] {
        for other in ["1", "2:7", ""] {
            assert_ne!(Feed::Releases.record_key(key), Feed::Blog.record_key(other));
            assert_eq!(Feed::Blog.record_key(key) == Feed::Blog.record_key(other), key == other);
        }
    }
}

#[test]
fn the_next_pass_sends_nothing_again_that_was_sent_or_may_have_been() {
    let ids: Vec<String> = numbered("post", 4).into_iter().rev().collect();
    let mut world = World::new(&[Outcome::Sent, Outcome::Unknown]);
    world.records.insert("seen:blog:1".to_string(), numbered("old", SEEN_CAP - ids.len()));
    world.run(&ids, "1");
    assert_eq!(world.sent.len(), 1);
    world.run(&ids, "1");
    let texts: Vec<String> = world.sent.iter().map(|(_, text)| text.clone()).collect();
    assert_eq!(texts, [text("post0"), text("post2"), text("post3")]);
}

#[test]
fn a_pass_after_a_successful_one_only_reads() {
    let ids: Vec<String> = numbered("post", 5).into_iter().rev().collect();
    let mut world = World::new(&[]);
    world.records.insert("seen:blog:1".to_string(), numbered("old", SEEN_CAP - ids.len()));
    world.records.insert("seen:blog:2:7".to_string(), Vec::new());
    // The list may name a destination twice, and one without a record.
    world.run(&ids, "1,2:7,3,1");
    assert_eq!(world.sent.len(), 10);
    let (records, actions) = (world.records.clone(), world.actions);
    world.run(&ids, "1,2:7,3,1");
    assert_eq!(world.sent.len(), 10);
    assert_eq!(world.records, records);
    assert_eq!(world.actions, actions + 4);
}

#[test]
fn full_records_send_nothing_again_either() {
    let mut world = World::new(&[Outcome::Sent, Outcome::Unknown]);
    world.records.insert("seen:blog:1".to_string(), numbered("old", SEEN_CAP));
    let ids: Vec<String> = numbered("post", SEEN_CAP).into_iter().rev().collect();
    world.run(&ids, "1");
    world.run(&ids, "1");
    world.run(&ids, "1");
    // All but the one that may have landed, each once.
    assert_eq!(world.sent.len(), SEEN_CAP - 1);
    assert!(!world.sent.iter().any(|(_, sent)| *sent == text("post1")));
    for (i, delivery) in world.sent.iter().enumerate() {
        assert!(!world.sent[..i].contains(delivery));
    }
}

#[test]
fn a_pass_over_full_records_only_reads_after_a_successful_one() {
    let mut record = numbered("old", SEEN_CAP - 2);
    record.extend(["post0".to_string(), "post1".to_string()]);
    let ids: Vec<String> = numbered("post", 5).into_iter().rev().collect();
    let mut world = World::new(&[]);
    world.records.insert("seen:blog:1".to_string(), record);
    world.run(&ids, "1");
    assert_eq!(world.sent.len(), 3);
    let actions = world.actions;
    world.run(&ids, "1");
    assert_eq!((world.sent.len(), world.actions), (3, actions + 1));
}

#[test]
fn a_pass_over_two_lists_is_one_after_the_other() {
    let first = || vec![seen(&[]), stored(), delivered(Outcome::Rejected), stored()];
    let second = || vec![seen(&["a"]), down()];
    let (mut actions, mut logs) = play(&["b", "a"], "1", first());
    assert_eq!(actions.pop(), Some(Action::Done));
    let (more, lines) = play(&["b", "a"], "2", second());
    actions.extend(more);
    logs.extend(lines);
    let mut both = first();
    both.extend(second());
    assert_eq!(play(&["b", "a"], "1,2", both), (actions, logs));
}
