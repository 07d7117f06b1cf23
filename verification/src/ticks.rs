//! What holds of one pass after another: with a store between them that hands
//! back what was last put into it, and with the destinations of a pass split
//! between two.

use vstd::prelude::*;

use crate::laws;
use crate::model;
use crate::model::{EntryView, Feed, Outcome, TargetView};
use crate::pass;
use crate::pass::{ActionView, EventView, PassView, StageView, MAX_RETRY_WAIT};
use crate::record;
use crate::record::SEEN_CAP;

verus! {

/// The records of a store, by their keys.
pub type Records = Map<Seq<char>, Seq<Seq<char>>>;

/// What `store` holds under `key`.
pub open spec fn found(store: Records, key: Seq<char>) -> Option<Seq<Seq<char>>> {
    if store.contains_key(key) {
        Some(store[key])
    } else {
        None
    }
}

/// Whether `event` is how `action` goes with `store`: what is read is what it
/// holds, and what is put is stored. How a send goes is left open.
pub open spec fn serves(store: Records, action: ActionView, event: EventView) -> bool {
    match action {
        ActionView::Get { key } => event == EventView::Record(Ok(found(store, key))),
        ActionView::Put { .. } => event is Stored && event->Stored_0 is Ok,
        _ => true,
    }
}

/// The store after `action`.
pub open spec fn put(store: Records, action: ActionView) -> Records {
    match action {
        ActionView::Put { key, record } => store.insert(key, record),
        _ => store,
    }
}

/// The store after the first `i` actions of a run that found it as `store`.
pub open spec fn stored_at(
    pass: PassView,
    events: Seq<EventView>,
    store: Records,
    i: int,
) -> Records
    decreases i,
{
    if i <= 0 {
        store
    } else {
        put(stored_at(pass, events, store, i - 1), laws::action_at(pass, events, i - 1))
    }
}

/// Whether `events` are the answers of a run against `store`.
pub open spec fn served(pass: PassView, events: Seq<EventView>, store: Records) -> bool {
    &&& laws::answered(pass, events)
    &&& forall|i: int|
        0 <= i < events.len() ==> serves(
            stored_at(pass, events, store, i),
            (#[trigger] laws::state_at(pass, events, i)).action(),
            events[i],
        )
}

/// The record key of the `m`th destination of a pass.
pub open spec fn key_at(s: PassView, m: int) -> Seq<char> {
    model::record_key(s.feed, s.targets[m].key)
}

/// Whether every record of the destinations of a pass that is in `store` has
/// room for everything the feed shows.
pub open spec fn has_room(s: PassView, store: Records) -> bool {
    forall|m: int|
        0 <= m < s.targets.len() && store.contains_key(#[trigger] key_at(s, m))
            ==> store[key_at(s, m)].len() + s.entries.len() <= SEEN_CAP
}

/// Whether no destination is listed twice.
pub open spec fn apart(targets: Seq<TargetView>) -> bool {
    forall|m: int, n: int|
        0 <= m < n < targets.len() ==> (#[trigger] targets[m]).key != (#[trigger] targets[n]).key
}

/// Whether `now` is `before` with some of `ids` behind it, none of them twice.
pub open spec fn grown(before: Seq<Seq<char>>, now: Seq<Seq<char>>, ids: Seq<Seq<char>>) -> bool {
    &&& before.is_prefix_of(now)
    &&& now.skip(before.len() as int).no_duplicates()
    &&& forall|i: int| before.len() <= i < now.len() ==> ids.contains(#[trigger] now[i])
}

/// Whether `store` is what passes over `entries` can have made of `start`: a
/// record that was there has grown, and one that was not holds the whole feed.
pub open spec fn kept(start: Records, store: Records, entries: Seq<EntryView>) -> bool {
    &&& forall|key: Seq<char>| #[trigger]
        start.contains_key(key) ==> store.contains_key(key) && grown(
            start[key],
            store[key],
            model::ids(entries),
        )
    &&& forall|key: Seq<char>| #[trigger]
        store.contains_key(key) && !start.contains_key(key) ==> store[key] == model::ids(entries)
}

/// Whether the record a pass works on is the one in the store.
pub open spec fn in_step(s: PassView, start: Records, store: Records) -> bool {
    let key = s.key();
    let before = start[key];
    match s.stage {
        StageView::Seeding => !store.contains_key(key),
        StageView::Claiming { record, .. } => {
            &&& start.contains_key(key)
            &&& store[key] == record.drop_last()
        },
        StageView::Sending { record, .. } => {
            &&& start.contains_key(key)
            &&& store[key] == record
            &&& grown(before, record.drop_last(), model::ids(s.entries))
        },
        StageView::Waiting { record, .. } => {
            &&& start.contains_key(key)
            &&& store[key] == record
            &&& grown(before, record.drop_last(), model::ids(s.entries))
        },
        StageView::GivingBack { record, queue } => {
            &&& start.contains_key(key)
            &&& store[key] == record.push(queue[0].id)
            &&& grown(before, record, model::ids(s.entries))
        },
        _ => true,
    }
}

/// What every state of a run against a store keeps.
pub open spec fn steady(s: PassView, start: Records, store: Records) -> bool {
    &&& laws::sound(s)
    &&& laws::unsent(s)
    &&& laws::distinct(s.entries)
    &&& has_room(s, start)
    &&& kept(start, store, s.entries)
    &&& in_step(s, start, store)
}

/// A record has grown by no more than there are ids.
proof fn lemma_grown_len(before: Seq<Seq<char>>, now: Seq<Seq<char>>, ids: Seq<Seq<char>>)
    requires
        grown(before, now, ids),
    ensures
        now.len() <= before.len() + ids.len(),
{
    let added = now.skip(before.len() as int);
    assert forall|id: Seq<char>| added.to_set().contains(id) implies ids.to_set().contains(id) by {
        let i = choose|i: int| 0 <= i < added.len() && added[i] == id;
        assert(now[i + before.len()] == id);
    }
    added.unique_seq_to_set();
    ids.lemma_cardinality_of_set();
    assert(ids.to_set().finite()) by {
        vstd::seq_lib::seq_to_set_is_finite(ids);
    }
    vstd::set_lib::lemma_len_subset(added.to_set(), ids.to_set());
}

/// A record grows by an id that it does not hold.
proof fn lemma_grown_push(
    before: Seq<Seq<char>>,
    now: Seq<Seq<char>>,
    ids: Seq<Seq<char>>,
    id: Seq<char>,
)
    requires
        grown(before, now, ids),
        ids.contains(id),
        !now.contains(id),
    ensures
        grown(before, now.push(id), ids),
{
    let added = now.skip(before.len() as int);
    let more = now.push(id);
    assert(more.skip(before.len() as int) =~= added.push(id));
    assert forall|i: int| 0 <= i < added.len() implies added[i] != id by {
        assert(added[i] == now[i + before.len()]);
    }
    assert(before =~= more.take(before.len() as int));
}

/// Turning to an entry that the record in the store does not hold claims it
/// there without pushing anything out.
proof fn lemma_claim_fits(
    s: PassView,
    start: Records,
    store: Records,
    queue: Seq<EntryView>,
)
    requires
        0 <= s.at < s.targets.len(),
        kept(start, store, s.entries),
        has_room(s, start),
        store.contains_key(s.key()),
        queue.len() > 0,
        s.entries.contains(queue[0]),
        !store[s.key()].contains(queue[0].id),
    ensures
        start.contains_key(s.key()),
        record::claimed(store[s.key()], queue[0].id) == store[s.key()].push(queue[0].id),
        store[s.key()].len() < SEEN_CAP,
{
    let key = s.key();
    let ids = model::ids(s.entries);
    let k = choose|k: int| 0 <= k < s.entries.len() && s.entries[k] == queue[0];
    assert(key == key_at(s, s.at));
    assert(ids[k] == queue[0].id);
    assert(ids.contains(queue[0].id));
    assert(start.contains_key(key));
    lemma_grown_push(start[key], store[key], ids, queue[0].id);
    lemma_grown_len(start[key], store[key].push(queue[0].id), ids);
}

/// Every step keeps a run against a store steady.
proof fn lemma_steady_step(s: PassView, start: Records, store: Records, event: EventView)
    requires
        steady(s, start, store),
        s.awaits(event),
        serves(store, s.action(), event),
    ensures
        steady(s.advanced(event), start, put(store, s.action())),
{
    let t = s.advanced(event);
    let after = put(store, s.action());
    let key = s.key();
    let ids = model::ids(s.entries);
    laws::lemma_sound_step(s, event);
    laws::lemma_unsent_step(s, event);
    laws::lemma_queue_is_from_the_feed(t);
    assert(has_room(t, start)) by {
        assert forall|m: int|
            0 <= m < t.targets.len() && start.contains_key(#[trigger] key_at(t, m)) implies start[
            key_at(t, m)
        ].len() + t.entries.len() <= SEEN_CAP by {
            assert(key_at(t, m) == key_at(s, m));
        }
    }
    match s.stage {
        StageView::Reading => {
            if t.stage is Claiming {
                let seen = store[key];
                let fresh = pass::fresh(s.entries, seen);
                assert(fresh.contains(fresh[0]));
                laws::law_fresh_is_what_the_record_lacks(s.entries, seen, fresh[0]);
                lemma_claim_fits(s, start, store, fresh);
                assert(seen.push(fresh[0].id).drop_last() =~= seen);
            }
        },
        StageView::Seeding => {
            assert(after[key] == ids);
        },
        StageView::Claiming { record, queue } => {
            assert(record =~= record.drop_last().push(queue[0].id));
            assert(s.entries.contains(queue[0])) by {
                laws::lemma_queue_is_from_the_feed(s);
                assert(s.queue()[0] == queue[0]);
            }
            let k = choose|k: int| 0 <= k < s.entries.len() && s.entries[k] == queue[0];
            assert(ids[k] == queue[0].id);
            lemma_grown_push(start[key], store[key], ids, queue[0].id);
        },
        StageView::Sending { record, queue, .. } => {
            if t.stage is Claiming {
                let rest = queue.drop_first();
                assert(rest[0] == s.queue()[1]);
                assert(!record.contains(rest[0].id));
                assert(s.entries.contains(rest[0])) by {
                    assert(t.queue()[0] == rest[0]);
                }
                lemma_claim_fits(s, start, store, rest);
                assert(record.push(rest[0].id).drop_last() =~= record);
            } else if t.stage is GivingBack {
                assert(record =~= record.drop_last().push(queue[0].id));
            }
        },
        StageView::Waiting { .. } => {},
        StageView::GivingBack { record, queue } => {
            assert(after[key] == record);
        },
        StageView::Finished => {},
    }
}

/// Every state of a run against a store is steady.
proof fn lemma_steady_run(
    pass: PassView,
    events: Seq<EventView>,
    start: Records,
    store: Records,
    i: int,
)
    requires
        steady(pass, start, store),
        served(pass, events, store),
        0 <= i <= events.len(),
    ensures
        steady(laws::state_at(pass, events, i), start, stored_at(pass, events, store, i)),
    decreases i,
{
    if i == 0 {
        assert(events.take(0) =~= seq![]);
    } else {
        lemma_steady_run(pass, events, start, store, i - 1);
        laws::lemma_step(pass, events, i - 1);
        lemma_steady_step(
            laws::state_at(pass, events, i - 1),
            start,
            stored_at(pass, events, store, i - 1),
            events[i - 1],
        );
    }
}

/// A pass starts steady.
proof fn lemma_steady_start(
    feed: Feed,
    entries: Seq<EntryView>,
    targets: Seq<TargetView>,
    start: Records,
    store: Records,
)
    requires
        laws::distinct(entries),
        has_room(pass::begun(feed, entries, targets), start),
        kept(start, store, entries),
    ensures
        steady(pass::begun(feed, entries, targets), start, store),
{
    laws::lemma_begun(feed, entries, targets);
}

/// A store keeps itself.
proof fn lemma_kept_at_first(store: Records, entries: Seq<EntryView>)
    ensures
        kept(store, store, entries),
{
    assert forall|key: Seq<char>| #[trigger] store.contains_key(key) implies grown(
        store[key],
        store[key],
        model::ids(entries),
    ) by {
        let record = store[key];
        assert(record =~= record.take(record.len() as int));
        assert(record.skip(record.len() as int) =~= seq![]);
    }
}

/// Whether the destination with this record key is through with the entry `id`:
/// it is recorded in the store, and not queued there.
pub open spec fn through_with(s: PassView, store: Records, key: Seq<char>, id: Seq<char>) -> bool {
    &&& store.contains_key(key)
    &&& store[key].contains(id)
    &&& s.key() == key ==> forall|k: int|
        0 <= k < s.queue().len() ==> (#[trigger] s.queue()[k]).id != id
}

/// Once a destination is through with an entry, it stays so.
proof fn lemma_through_step(
    s: PassView,
    start: Records,
    store: Records,
    event: EventView,
    key: Seq<char>,
    id: Seq<char>,
)
    requires
        steady(s, start, store),
        s.awaits(event),
        serves(store, s.action(), event),
        through_with(s, store, key, id),
    ensures
        through_with(s.advanced(event), put(store, s.action()), key, id),
{
    let t = s.advanced(event);
    let after = put(store, s.action());
    let i = choose|i: int| 0 <= i < store[key].len() && store[key][i] == id;
    if s.key() == key {
        match s.stage {
            StageView::Reading => {
                let fresh = pass::fresh(s.entries, store[key]);
                assert forall|k: int| 0 <= k < fresh.len() implies (#[trigger] fresh[k]).id
                    != id by {
                    assert(fresh.contains(fresh[k]));
                    laws::law_fresh_is_what_the_record_lacks(s.entries, store[key], fresh[k]);
                }
            },
            StageView::Claiming { record, .. } => {
                assert(after[key][i] == id);
            },
            StageView::Sending { record, queue, .. } => {
                assert forall|k: int| 0 <= k < queue.drop_first().len() implies (
                #[trigger] queue.drop_first()[k]).id != id by {
                    assert(queue.drop_first()[k] == s.queue()[k + 1]);
                }
            },
            StageView::GivingBack { record, queue } => {
                assert(s.queue()[0].id != id);
                assert(i < record.len());
                assert(after[key][i] == id);
            },
            _ => {},
        }
    } else {
        assert(after[key] == store[key]);
    }
    if t.at != s.at {
        laws::lemma_patience(s, event);
        assert(t.queue().len() == 0);
    }
}

/// A destination is through with an entry whose send was answered with success,
/// or may have landed.
proof fn lemma_through_when_sent(s: PassView, start: Records, store: Records, outcome: Outcome)
    requires
        steady(s, start, store),
        s.stage is Sending,
        outcome is Sent || outcome is Unknown,
    ensures
        through_with(
            s.advanced(EventView::Delivered(outcome)),
            store,
            s.key(),
            s.current().id,
        ),
{
    let claims = s.claims();
    let rest = s.queue().drop_first();
    assert(claims[claims.len() - 1] == s.current().id);
    assert forall|k: int| 0 <= k < rest.len() implies (#[trigger] rest[k]).id
        != s.current().id by {
        assert(model::ids(s.queue())[0] != model::ids(s.queue())[k + 1]);
    }
}

/// From one state of a run to a later one, a destination stays through with an
/// entry.
proof fn lemma_through_run(
    pass: PassView,
    events: Seq<EventView>,
    start: Records,
    store: Records,
    i: int,
    j: int,
    key: Seq<char>,
    id: Seq<char>,
)
    requires
        steady(pass, start, store),
        served(pass, events, store),
        0 <= i <= j <= events.len(),
        through_with(
            laws::state_at(pass, events, i),
            stored_at(pass, events, store, i),
            key,
            id,
        ),
    ensures
        through_with(
            laws::state_at(pass, events, j),
            stored_at(pass, events, store, j),
            key,
            id,
        ),
    decreases j - i,
{
    if i < j {
        lemma_through_run(pass, events, start, store, i, j - 1, key, id);
        lemma_steady_run(pass, events, start, store, j - 1);
        laws::lemma_step(pass, events, j - 1);
        lemma_through_step(
            laws::state_at(pass, events, j - 1),
            start,
            stored_at(pass, events, store, j - 1),
            events[j - 1],
            key,
            id,
        );
    }
}

/// What was sent in a pass, or may have been, is in the store when it stops.
proof fn lemma_sent_is_left_in_the_store(
    pass: PassView,
    events: Seq<EventView>,
    store: Records,
    i: int,
)
    requires
        steady(pass, store, store),
        served(pass, events, store),
        0 <= i < events.len(),
        events[i] == EventView::Delivered(Outcome::Sent) || events[i] == EventView::Delivered(
            Outcome::Unknown,
        ),
    ensures
        ({
            let sent = laws::state_at(pass, events, i);
            let left = stored_at(pass, events, store, events.len() as int);
            &&& left.contains_key(sent.key())
            &&& left[sent.key()].contains(sent.current().id)
        }),
{
    let sent = laws::state_at(pass, events, i);
    let then = stored_at(pass, events, store, i);
    lemma_steady_run(pass, events, store, store, i);
    assert(sent.awaits(events[i]));
    assert(sent.stage is Sending);
    laws::lemma_step(pass, events, i);
    lemma_through_when_sent(sent, store, then, events[i]->Delivered_0);
    assert(stored_at(pass, events, store, i + 1) == then);
    lemma_through_run(
        pass,
        events,
        store,
        store,
        i + 1,
        events.len() as int,
        sent.key(),
        sent.current().id,
    );
}

/// What is in the store when a pass begins is not sent.
proof fn lemma_stored_is_not_sent(
    pass: PassView,
    events: Seq<EventView>,
    start: Records,
    store: Records,
    j: int,
    key: Seq<char>,
    id: Seq<char>,
)
    requires
        steady(pass, start, store),
        pass.queue().len() == 0,
        served(pass, events, store),
        store.contains_key(key),
        store[key].contains(id),
        0 <= j <= events.len(),
        laws::action_at(pass, events, j) is Send,
        laws::state_at(pass, events, j).key() == key,
    ensures
        laws::state_at(pass, events, j).current().id != id,
{
    assert(events.take(0) =~= seq![]);
    assert(laws::state_at(pass, events, 0) == pass);
    assert(through_with(pass, store, key, id));
    lemma_through_run(pass, events, start, store, 0, j, key, id);
    lemma_steady_run(pass, events, start, store, j);
    let later = laws::state_at(pass, events, j);
    assert(later.queue().len() > 0);
    assert(later.queue()[0].id != id);
}

/// Whether, while an entry is being sent, the store holds the record in which it
/// is claimed.
pub open spec fn mirrored(s: PassView, store: Records) -> bool {
    s.stage is Sending || s.stage is Waiting ==> {
        &&& store.contains_key(s.key())
        &&& store[s.key()] == s.claims()
    }
}

/// In every run against a store, what is being sent is claimed there.
proof fn lemma_mirrored_run(pass: PassView, events: Seq<EventView>, store: Records, i: int)
    requires
        laws::sound(pass),
        mirrored(pass, store),
        served(pass, events, store),
        0 <= i <= events.len(),
    ensures
        mirrored(laws::state_at(pass, events, i), stored_at(pass, events, store, i)),
    decreases i,
{
    if i == 0 {
        assert(events.take(0) =~= seq![]);
    } else {
        lemma_mirrored_run(pass, events, store, i - 1);
        laws::lemma_run(pass, events, i - 1);
        laws::lemma_step(pass, events, i - 1);
        let s = laws::state_at(pass, events, i - 1);
        let t = laws::state_at(pass, events, i);
        assert(s.awaits(events[i - 1]));
        if t.stage is Sending {
            laws::lemma_before_a_send(s, events[i - 1]);
        } else if t.stage is Waiting {
            laws::lemma_before_a_wait(s, events[i - 1]);
        }
    }
}

/// The record of another destination is another record.
proof fn lemma_apart(s: PassView, m: int, n: int)
    requires
        apart(s.targets),
        0 <= m < s.targets.len(),
        0 <= n < s.targets.len(),
        key_at(s, m) == key_at(s, n),
    ensures
        m == n,
{
    model::law_destinations_never_share_a_key(s.feed, s.targets[m].key, s.targets[n].key);
    if m < n {
        assert(s.targets[m].key != s.targets[n].key);
    } else if n < m {
        assert(s.targets[n].key != s.targets[m].key);
    }
}

/// Where no destination is listed twice, no later action of a pass takes out of
/// the store what was sent, or may have been, however full its record is.
proof fn lemma_sent_is_not_put_out(
    feed: Feed,
    entries: Seq<EntryView>,
    targets: Seq<TargetView>,
    events: Seq<EventView>,
    i: int,
    j: int,
)
    requires
        entries.len() <= SEEN_CAP,
        apart(targets),
        laws::answered(pass::begun(feed, entries, targets), events),
        0 <= i < j < events.len(),
        events[i] == EventView::Delivered(Outcome::Sent) || events[i] == EventView::Delivered(
            Outcome::Unknown,
        ),
        laws::action_at(pass::begun(feed, entries, targets), events, j) is Put,
        laws::state_at(pass::begun(feed, entries, targets), events, j).key() == laws::state_at(
            pass::begun(feed, entries, targets),
            events,
            i,
        ).key(),
    ensures
        laws::action_at(pass::begun(feed, entries, targets), events, j)->record.contains(
            laws::state_at(pass::begun(feed, entries, targets), events, i).current().id,
        ),
{
    let pass = pass::begun(feed, entries, targets);
    let sent = laws::state_at(pass, events, i);
    let s = laws::state_at(pass, events, j);
    laws::lemma_begun(feed, entries, targets);
    laws::lemma_run(pass, events, i);
    laws::lemma_run(pass, events, j);
    laws::lemma_step(pass, events, i);
    laws::lemma_at_only_grows(pass, events, i + 1, j);
    assert(sent.awaits(events[i]));
    assert(sent.key() == key_at(pass, sent.at));
    assert(s.key() == key_at(pass, s.at));
    lemma_apart(pass, sent.at, s.at);
    assert(events[i] == EventView::Delivered(Outcome::Sent));
    laws::law_what_was_delivered_stays_recorded(feed, entries, targets, events, i, j, seq![]);
}

/// What is sent, or may have been, is in the store when the answer comes.
proof fn lemma_sent_is_in_the_store(
    pass: PassView,
    events: Seq<EventView>,
    store: Records,
    i: int,
)
    requires
        laws::sound(pass),
        mirrored(pass, store),
        served(pass, events, store),
        0 <= i < events.len(),
        events[i] is Delivered,
    ensures
        ({
            let sent = laws::state_at(pass, events, i);
            let left = stored_at(pass, events, store, i + 1);
            &&& left.contains_key(sent.key())
            &&& left[sent.key()].contains(sent.current().id)
        }),
{
    let sent = laws::state_at(pass, events, i);
    laws::lemma_run(pass, events, i);
    lemma_mirrored_run(pass, events, store, i);
    assert(sent.awaits(events[i]));
    assert(sent.stage is Sending);
    assert(stored_at(pass, events, store, i + 1) == stored_at(pass, events, store, i));
    let claims = sent.claims();
    assert(claims[claims.len() - 1] == sent.current().id);
}

/// An action that puts no record without `id` under `key` leaves it there.
proof fn lemma_put_leaves(store: Records, action: ActionView, key: Seq<char>, id: Seq<char>)
    requires
        store.contains_key(key),
        store[key].contains(id),
        action is Put && action->Put_key == key ==> action->record.contains(id),
    ensures
        put(store, action).contains_key(key),
        put(store, action)[key].contains(id),
{
}

/// Where no destination is listed twice, what was sent in a pass, or may have
/// been, stays in the store, however full its record is.
proof fn lemma_sent_stays_in_the_store(
    feed: Feed,
    entries: Seq<EntryView>,
    targets: Seq<TargetView>,
    events: Seq<EventView>,
    store: Records,
    i: int,
    j: int,
)
    requires
        entries.len() <= SEEN_CAP,
        apart(targets),
        served(pass::begun(feed, entries, targets), events, store),
        0 <= i < j <= events.len(),
        events[i] == EventView::Delivered(Outcome::Sent) || events[i] == EventView::Delivered(
            Outcome::Unknown,
        ),
    ensures
        stored_at(pass::begun(feed, entries, targets), events, store, j).contains_key(
            laws::state_at(pass::begun(feed, entries, targets), events, i).key(),
        ),
        stored_at(pass::begun(feed, entries, targets), events, store, j)[laws::state_at(
            pass::begun(feed, entries, targets),
            events,
            i,
        ).key()].contains(
            laws::state_at(pass::begun(feed, entries, targets), events, i).current().id,
        ),
    decreases j,
{
    let pass = pass::begun(feed, entries, targets);
    if j == i + 1 {
        laws::lemma_begun(feed, entries, targets);
        lemma_sent_is_in_the_store(pass, events, store, i);
    } else {
        lemma_sent_stays_in_the_store(feed, entries, targets, events, store, i, j - 1);
        let key = laws::state_at(pass, events, i).key();
        let id = laws::state_at(pass, events, i).current().id;
        let action = laws::action_at(pass, events, j - 1);
        assert(action is Put ==> action->Put_key == laws::state_at(pass, events, j - 1).key());
        if action is Put && action->Put_key == key {
            lemma_sent_is_not_put_out(feed, entries, targets, events, i, j - 1);
        }
        lemma_put_leaves(stored_at(pass, events, store, j - 1), action, key, id);
    }
}

/// Whether the `m`th destination of a pass has not been turned to.
pub open spec fn ahead(s: PassView, m: int) -> bool {
    s.at < m || (s.at == m && s.stage is Reading)
}

/// Where no destination is listed twice, what is in the store when a pass
/// begins is not sent, however full its record is.
proof fn lemma_stored_is_not_queued(
    pass: PassView,
    events: Seq<EventView>,
    store: Records,
    m: int,
    id: Seq<char>,
    j: int,
)
    requires
        laws::sound(pass),
        pass.queue().len() == 0,
        pass.stage is Reading ==> pass.at == 0,
        apart(pass.targets),
        served(pass, events, store),
        0 <= m < pass.targets.len(),
        store.contains_key(key_at(pass, m)),
        store[key_at(pass, m)].contains(id),
        0 <= j <= events.len(),
    ensures
        ({
            let s = laws::state_at(pass, events, j);
            let now = stored_at(pass, events, store, j);
            let key = key_at(pass, m);
            &&& ahead(s, m) ==> now.contains_key(key) && now[key].contains(id)
            &&& s.at == m ==> forall|k: int|
                0 <= k < s.queue().len() ==> (#[trigger] s.queue()[k]).id != id
        }),
    decreases j,
{
    if j == 0 {
        assert(events.take(0) =~= seq![]);
    } else {
        lemma_stored_is_not_queued(pass, events, store, m, id, j - 1);
        laws::lemma_run(pass, events, j - 1);
        laws::lemma_step(pass, events, j - 1);
        let s = laws::state_at(pass, events, j - 1);
        let t = laws::state_at(pass, events, j);
        let now = stored_at(pass, events, store, j - 1);
        assert(s.awaits(events[j - 1]));
        laws::lemma_sound_step(s, events[j - 1]);
        laws::lemma_patience(s, events[j - 1]);
        assert(s.key() == key_at(pass, s.at));
        if s.at < m {
            if s.key() == key_at(pass, m) {
                lemma_apart(pass, s.at, m);
            }
        } else if s.at == m && s.stage is Reading {
            let fresh = pass::fresh(s.entries, now[s.key()]);
            assert forall|k: int| 0 <= k < fresh.len() implies (#[trigger] fresh[k]).id != id by {
                assert(fresh.contains(fresh[k]));
                laws::law_fresh_is_what_the_record_lacks(s.entries, now[s.key()], fresh[k]);
            }
        } else if s.at == m && t.at == m && s.queue().len() > 0 {
            laws::lemma_queue_step(s, events[j - 1]);
            assert forall|k: int| 0 <= k < t.queue().len() implies (#[trigger] t.queue()[k]).id
                != id by {
                if t.queue() == s.queue().drop_first() {
                    assert(t.queue()[k] == s.queue()[k + 1]);
                }
            }
        }
    }
}

/// The next pass sends nothing again where no destination is listed twice.
proof fn lemma_nothing_again_apart(
    feed: Feed,
    entries: Seq<EntryView>,
    targets: Seq<TargetView>,
    store: Records,
    first: Seq<EventView>,
    second: Seq<EventView>,
    i: int,
    j: int,
)
    requires
        entries.len() <= SEEN_CAP,
        apart(targets),
        served(pass::begun(feed, entries, targets), first, store),
        served(
            pass::begun(feed, entries, targets),
            second,
            stored_at(pass::begun(feed, entries, targets), first, store, first.len() as int),
        ),
        0 <= i < first.len(),
        first[i] == EventView::Delivered(Outcome::Sent) || first[i] == EventView::Delivered(
            Outcome::Unknown,
        ),
        0 <= j <= second.len(),
        laws::action_at(pass::begun(feed, entries, targets), second, j) is Send,
        laws::state_at(pass::begun(feed, entries, targets), second, j).key() == laws::state_at(
            pass::begun(feed, entries, targets),
            first,
            i,
        ).key(),
    ensures
        laws::state_at(pass::begun(feed, entries, targets), second, j).current().id
            != laws::state_at(pass::begun(feed, entries, targets), first, i).current().id,
{
    let pass = pass::begun(feed, entries, targets);
    let end = first.len() as int;
    let sent = laws::state_at(pass, first, i);
    let later = laws::state_at(pass, second, j);
    let id = sent.current().id;
    lemma_sent_stays_in_the_store(feed, entries, targets, first, store, i, end);
    laws::lemma_begun(feed, entries, targets);
    laws::lemma_run(pass, first, i);
    laws::lemma_run(pass, second, j);
    assert(sent.awaits(first[i]));
    assert(sent.stage is Sending);
    assert(later.stage is Sending);
    assert(sent.key() == key_at(pass, sent.at));
    assert(later.key() == key_at(pass, later.at));
    lemma_apart(pass, sent.at, later.at);
    lemma_stored_is_not_queued(
        pass,
        second,
        stored_at(pass, first, store, end),
        sent.at,
        id,
        j,
    );
    assert(later.queue()[0].id != id);
}

/// The next pass sends nothing again where the records have room.
proof fn lemma_nothing_again_with_room(
    feed: Feed,
    entries: Seq<EntryView>,
    targets: Seq<TargetView>,
    store: Records,
    first: Seq<EventView>,
    second: Seq<EventView>,
    i: int,
    j: int,
)
    requires
        laws::distinct(entries),
        has_room(pass::begun(feed, entries, targets), store),
        served(pass::begun(feed, entries, targets), first, store),
        served(
            pass::begun(feed, entries, targets),
            second,
            stored_at(pass::begun(feed, entries, targets), first, store, first.len() as int),
        ),
        0 <= i < first.len(),
        first[i] == EventView::Delivered(Outcome::Sent) || first[i] == EventView::Delivered(
            Outcome::Unknown,
        ),
        0 <= j <= second.len(),
        laws::action_at(pass::begun(feed, entries, targets), second, j) is Send,
        laws::state_at(pass::begun(feed, entries, targets), second, j).key() == laws::state_at(
            pass::begun(feed, entries, targets),
            first,
            i,
        ).key(),
    ensures
        laws::state_at(pass::begun(feed, entries, targets), second, j).current().id
            != laws::state_at(pass::begun(feed, entries, targets), first, i).current().id,
{
    let pass = pass::begun(feed, entries, targets);
    let end = first.len() as int;
    let left = stored_at(pass, first, store, end);
    let sent = laws::state_at(pass, first, i);
    lemma_kept_at_first(store, entries);
    lemma_steady_start(feed, entries, targets, store, store);
    lemma_sent_is_left_in_the_store(pass, first, store, i);
    lemma_steady_run(pass, first, store, store, end);
    laws::lemma_run(pass, first, end);
    assert(kept(store, left, entries));
    lemma_steady_start(feed, entries, targets, store, left);
    lemma_stored_is_not_sent(pass, second, store, left, j, sent.key(), sent.current().id);
}

/// The next pass sends nothing again that was sent, or may have been: if a send
/// of the first pass was answered with success, or with nothing that proves
/// anything, no send of a second pass over what the first one left in the store
/// is of that entry to that destination. The first pass may have stopped
/// anywhere, and the records may be full.
///
/// This holds while the feed shows no more entries than a record can hold and no
/// destination is listed twice; or, where one is, while the entries have
/// different ids and the records of the destinations have room for them.
pub proof fn law_the_next_pass_sends_nothing_again(
    feed: Feed,
    entries: Seq<EntryView>,
    targets: Seq<TargetView>,
    store: Records,
    first: Seq<EventView>,
    second: Seq<EventView>,
    i: int,
    j: int,
)
    requires
        (entries.len() <= SEEN_CAP && apart(targets)) || (laws::distinct(entries) && has_room(
            pass::begun(feed, entries, targets),
            store,
        )),
        served(pass::begun(feed, entries, targets), first, store),
        served(
            pass::begun(feed, entries, targets),
            second,
            stored_at(pass::begun(feed, entries, targets), first, store, first.len() as int),
        ),
        0 <= i < first.len(),
        first[i] == EventView::Delivered(Outcome::Sent) || first[i] == EventView::Delivered(
            Outcome::Unknown,
        ),
        0 <= j <= second.len(),
        laws::action_at(pass::begun(feed, entries, targets), second, j) is Send,
        laws::state_at(pass::begun(feed, entries, targets), second, j).key() == laws::state_at(
            pass::begun(feed, entries, targets),
            first,
            i,
        ).key(),
    ensures
        laws::state_at(pass::begun(feed, entries, targets), second, j).current().id
            != laws::state_at(pass::begun(feed, entries, targets), first, i).current().id,
{
    if entries.len() <= SEEN_CAP && apart(targets) {
        lemma_nothing_again_apart(feed, entries, targets, store, first, second, i, j);
    } else {
        lemma_nothing_again_with_room(feed, entries, targets, store, first, second, i, j);
    }
}

/// Whether `record` holds everything the feed shows.
pub open spec fn complete(entries: Seq<EntryView>, record: Seq<Seq<char>>) -> bool {
    forall|k: int| 0 <= k < entries.len() ==> record.contains((#[trigger] entries[k]).id)
}

/// Whether claiming what is fresh for `record` pushes nothing out of it that the
/// feed still shows.
pub open spec fn outlasts(entries: Seq<EntryView>, record: Seq<Seq<char>>) -> bool {
    &&& pass::fresh(entries, record).len() <= SEEN_CAP
    &&& forall|k: int|
        0 <= k < entries.len() && record.contains((#[trigger] entries[k]).id) ==> record::latest(
            record,
            SEEN_CAP - pass::fresh(entries, record).len(),
        ).contains(entries[k].id)
}

/// Whether the record under `key` holds everything the feed shows.
pub open spec fn full(store: Records, key: Seq<char>, entries: Seq<EntryView>) -> bool {
    store.contains_key(key) && complete(entries, store[key])
}

/// Whether a pass can bring the record under `key` up to date.
pub open spec fn ready(store: Records, key: Seq<char>, entries: Seq<EntryView>) -> bool {
    store.contains_key(key) ==> complete(entries, store[key]) || outlasts(entries, store[key])
}

/// Nothing is fresh for a record just if it holds everything the feed shows.
proof fn lemma_complete(entries: Seq<EntryView>, record: Seq<Seq<char>>)
    ensures
        complete(entries, record) <==> pass::fresh(entries, record).len() == 0,
{
    let fresh = pass::fresh(entries, record);
    if complete(entries, record) && fresh.len() > 0 {
        assert(fresh.contains(fresh[0]));
        laws::law_fresh_is_what_the_record_lacks(entries, record, fresh[0]);
        let k = choose|k: int| 0 <= k < entries.len() && entries[k] == fresh[0];
        assert(record.contains(entries[k].id));
    }
    if fresh.len() == 0 {
        assert forall|k: int| 0 <= k < entries.len() implies record.contains(
            (#[trigger] entries[k]).id,
        ) by {
            laws::law_fresh_is_what_the_record_lacks(entries, record, entries[k]);
        }
    }
}

/// Whether the pass has turned to its destination.
pub open spec fn turned(s: PassView) -> bool {
    s.stage is Seeding || s.delivering()
}

/// Whether the pass is claiming or sending the `n`th of the entries that were
/// fresh for the record `seen`, with those before it claimed.
pub open spec fn working(s: PassView, seen: Seq<Seq<char>>, n: int) -> bool {
    let fresh = pass::fresh(s.entries, seen);
    &&& outlasts(s.entries, seen)
    &&& 0 <= n < fresh.len()
    &&& s.queue() == fresh.skip(n)
    &&& s.claims() == record::claimed_all(seen, model::ids(fresh.take(n + 1)))
}

/// Whether a pass is going well: the destinations behind it are up to date, the
/// others can be brought up to date, and the current one is being brought so.
pub open spec fn going_well(s: PassView, store: Records) -> bool {
    &&& s.logs.len() == 0
    &&& s.stage !is Waiting
    &&& s.stage !is GivingBack
    &&& mirrored(s, store)
    &&& forall|m: int|
        0 <= m < s.at && m < s.targets.len() ==> full(store, #[trigger] key_at(s, m), s.entries) && (turned(s)
            ==> key_at(s, m) != s.key())
    &&& forall|m: int|
        0 <= m < s.targets.len() ==> (turned(s) && #[trigger] key_at(s, m) == s.key()) || ready(
            store,
            key_at(s, m),
            s.entries,
        )
    &&& s.delivering() ==> exists|seen: Seq<Seq<char>>, n: int| #[trigger] working(s, seen, n)
}

/// The destination is brought up to date once its last entry is sent.
proof fn lemma_worked_off(s: PassView, seen: Seq<Seq<char>>, n: int)
    requires
        working(s, seen, n),
    ensures
        s.queue().len() == 1 ==> complete(s.entries, s.claims()),
        s.queue().len() > 1 ==> s.queue().drop_first() == pass::fresh(s.entries, seen).skip(n + 1)
            && record::claimed(s.claims(), s.queue()[1].id) == record::claimed_all(
            seen,
            model::ids(pass::fresh(s.entries, seen).take(n + 2)),
        ),
{
    let fresh = pass::fresh(s.entries, seen);
    if s.queue().len() == 1 {
        assert(fresh.take(n + 1) =~= fresh);
        laws::law_nothing_is_fresh_once_claimed(s.entries, seen);
        lemma_complete(s.entries, s.claims());
    } else {
        assert(s.queue().drop_first() =~= fresh.skip(n + 1));
        let ids = model::ids(fresh.take(n + 2));
        assert(ids.drop_last() =~= model::ids(fresh.take(n + 1)));
        assert(ids.last() == fresh[n + 1].id);
        assert(s.queue()[1] == fresh[n + 1]);
    }
}

/// Where a pass that is going well stands after reading a record.
proof fn lemma_going_well_read(s: PassView, store: Records, event: EventView)
    requires
        laws::sound(s),
        s.stage is Reading,
        going_well(s, store),
        s.awaits(event),
        serves(store, s.action(), event),
    ensures
        ({
            let t = s.advanced(event);
            let key = s.key();
            ||| t.stage is Seeding && t.at == s.at && !store.contains_key(key)
            ||| t.stage is Claiming && t.at == s.at && store.contains_key(key) && !complete(
                s.entries,
                store[key],
            ) && working(t, store[key], 0)
            ||| t == s.moved_on() && full(store, key, s.entries)
        }),
        s.advanced(event).logs == s.logs,
{
    let key = s.key();
    let t = s.advanced(event);
    assert(key == key_at(s, s.at));
    if store.contains_key(key) {
        let seen = store[key];
        let fresh = pass::fresh(s.entries, seen);
        lemma_complete(s.entries, seen);
        if fresh.len() > 0 {
            assert(ready(store, key_at(s, s.at), s.entries));
            assert(fresh.skip(0) =~= fresh);
            let ids = model::ids(fresh.take(1));
            assert(ids.drop_last() =~= seq![]);
            assert(ids.last() == fresh[0].id);
            assert(record::claimed_all(seen, ids) == record::claimed(seen, fresh[0].id)) by {
                reveal_with_fuel(record::claimed_all, 2);
            }
            assert(working(t, seen, 0));
        }
    }
}

/// A pass whose sends all succeed keeps going well.
proof fn lemma_going_well_step(s: PassView, store: Records, event: EventView)
    requires
        laws::sound(s),
        going_well(s, store),
        s.awaits(event),
        serves(store, s.action(), event),
        event is Delivered ==> event->Delivered_0 is Sent,
    ensures
        going_well(s.advanced(event), put(store, s.action())),
{
    let t = s.advanced(event);
    let after = put(store, s.action());
    let key = s.key();
    laws::lemma_sound_step(s, event);
    laws::lemma_patience(s, event);
    assert(key == key_at(s, s.at));
    assert forall|m: int| #[trigger] key_at(t, m) == key_at(s, m) by {}
    match s.stage {
        StageView::Reading => {
            lemma_going_well_read(s, store, event);
        },
        StageView::Seeding => {
            let ids = model::ids(s.entries);
            assert forall|k: int| 0 <= k < s.entries.len() implies ids.contains(
                (#[trigger] s.entries[k]).id,
            ) by {
                assert(ids[k] == s.entries[k].id);
            }
            assert(full(after, key, s.entries));
        },
        StageView::Claiming { record, queue } => {
            let (seen, n) = choose|seen: Seq<Seq<char>>, n: int| #[trigger] working(s, seen, n);
            assert(working(t, seen, n));
        },
        StageView::Sending { record, queue, .. } => {
            let (seen, n) = choose|seen: Seq<Seq<char>>, n: int| #[trigger] working(s, seen, n);
            lemma_worked_off(s, seen, n);
            if queue.len() == 1 {
                assert(queue.drop_first().len() == 0);
                assert(full(after, key, s.entries));
            } else {
                assert(queue.drop_first()[0] == queue[1]);
                assert(working(t, seen, n + 1));
            }
        },
        _ => {},
    }
    assert forall|m: int| 0 <= m < t.at && m < t.targets.len() implies full(
        after,
        #[trigger] key_at(t, m),
        t.entries,
    ) && (turned(t) ==> key_at(t, m) != t.key()) by {
        assert(key_at(t, m) == key_at(s, m));
        if m < s.at {
            assert(full(store, key_at(s, m), s.entries));
        }
    }
    assert forall|m: int| 0 <= m < t.targets.len() implies (turned(t) && #[trigger] key_at(t, m)
        == t.key()) || ready(after, key_at(t, m), t.entries) by {
        assert(key_at(t, m) == key_at(s, m));
    }
}

/// A pass whose sends all succeed goes well throughout.
proof fn lemma_going_well_run(pass: PassView, events: Seq<EventView>, store: Records, i: int)
    requires
        laws::sound(pass),
        going_well(pass, store),
        served(pass, events, store),
        forall|k: int|
            0 <= k < events.len() && (#[trigger] events[k]) is Delivered
                ==> events[k]->Delivered_0 is Sent,
        0 <= i <= events.len(),
    ensures
        going_well(laws::state_at(pass, events, i), stored_at(pass, events, store, i)),
    decreases i,
{
    if i == 0 {
        assert(events.take(0) =~= seq![]);
    } else {
        lemma_going_well_run(pass, events, store, i - 1);
        laws::lemma_run(pass, events, i - 1);
        laws::lemma_step(pass, events, i - 1);
        lemma_going_well_step(
            laws::state_at(pass, events, i - 1),
            stored_at(pass, events, store, i - 1),
            events[i - 1],
        );
    }
}

/// Whether a pass has only read so far, and will only read on.
pub open spec fn only_reads(s: PassView, store: Records) -> bool {
    &&& s.wf()
    &&& s.stage is Reading || s.stage is Finished
    &&& s.logs.len() == 0
    &&& s.stage is Reading ==> forall|m: int|
        0 <= m < s.targets.len() ==> full(store, #[trigger] key_at(s, m), s.entries)
}

/// A pass over destinations that are up to date only reads.
proof fn lemma_only_reads_run(pass: PassView, events: Seq<EventView>, store: Records, i: int)
    requires
        only_reads(pass, store),
        served(pass, events, store),
        0 <= i <= events.len(),
    ensures
        only_reads(laws::state_at(pass, events, i), store),
        stored_at(pass, events, store, i) == store,
    decreases i,
{
    if i == 0 {
        assert(events.take(0) =~= seq![]);
    } else {
        lemma_only_reads_run(pass, events, store, i - 1);
        laws::lemma_step(pass, events, i - 1);
        let s = laws::state_at(pass, events, i - 1);
        assert(s.awaits(events[i - 1]));
        assert(full(store, key_at(s, s.at), s.entries));
        laws::law_up_to_date_destinations_are_left_alone(s, store[s.key()]);
        let t = laws::state_at(pass, events, i);
        assert forall|m: int| t.stage is Reading && 0 <= m < t.targets.len() implies full(
            store,
            #[trigger] key_at(t, m),
            t.entries,
        ) by {
            assert(key_at(t, m) == key_at(s, m));
        }
    }
}

/// Nothing is resent once every destination is up to date: after a pass whose
/// sends all succeeded, a second pass over the same feed and what the first one
/// left in the store only reads. It stores, sends and waits for nothing, and
/// logs nothing. The records may be full, as long as the claims of the first
/// pass push nothing out of them that the feed still shows.
pub proof fn law_a_pass_after_a_successful_one_only_reads(
    feed: Feed,
    entries: Seq<EntryView>,
    targets: Seq<TargetView>,
    store: Records,
    first: Seq<EventView>,
    second: Seq<EventView>,
    j: int,
)
    requires
        forall|m: int|
            0 <= m < targets.len() && store.contains_key(
                model::record_key(feed, (#[trigger] targets[m]).key),
            ) ==> outlasts(entries, store[model::record_key(feed, targets[m].key)]),
        served(pass::begun(feed, entries, targets), first, store),
        laws::action_at(pass::begun(feed, entries, targets), first, first.len() as int) is Done,
        forall|k: int|
            0 <= k < first.len() && (#[trigger] first[k]) is Delivered
                ==> first[k]->Delivered_0 is Sent,
        served(
            pass::begun(feed, entries, targets),
            second,
            stored_at(pass::begun(feed, entries, targets), first, store, first.len() as int),
        ),
        0 <= j <= second.len(),
    ensures
        laws::action_at(pass::begun(feed, entries, targets), second, j) is Get
            || laws::action_at(pass::begun(feed, entries, targets), second, j) is Done,
        laws::state_at(pass::begun(feed, entries, targets), second, j).logs.len() == 0,
{
    let pass = pass::begun(feed, entries, targets);
    let end = first.len() as int;
    let left = stored_at(pass, first, store, end);
    laws::lemma_begun(feed, entries, targets);
    assert forall|m: int| 0 <= m < pass.targets.len() implies ready(
        store,
        #[trigger] key_at(pass, m),
        entries,
    ) by {
        assert(pass.targets[m] == targets[m]);
    }
    lemma_going_well_run(pass, first, store, end);
    laws::lemma_run(pass, first, end);
    let last = laws::state_at(pass, first, end);
    if pass.stage is Reading {
        assert forall|m: int| 0 <= m < targets.len() implies full(
            left,
            #[trigger] key_at(pass, m),
            entries,
        ) by {
            assert(key_at(last, m) == key_at(pass, m));
        }
    }
    lemma_only_reads_run(pass, second, left, j);
}

/// A record with room for everything the feed shows loses nothing of it.
pub proof fn law_a_record_with_room_outlasts_a_pass(
    entries: Seq<EntryView>,
    record: Seq<Seq<char>>,
)
    requires
        record.len() + entries.len() <= SEEN_CAP,
    ensures
        outlasts(entries, record),
{
    laws::law_fresh_is_what_the_record_lacks(
        entries,
        record,
        EntryView { id: seq![], title: seq![], link: seq![] },
    );
}

/// What a pass over `one` stands like in a pass over `one` and then `two`.
pub open spec fn with_more(s: PassView, two: Seq<TargetView>) -> PassView {
    PassView {
        targets: s.targets + two,
        stage: if s.stage is Finished && two.len() > 0 {
            StageView::Reading
        } else {
            s.stage
        },
        ..s
    }
}

/// What a pass over `two` stands like in a pass over `one` and then `two`, with
/// these lines logged about `one`.
pub open spec fn behind(s: PassView, one: Seq<TargetView>, logs: Seq<Seq<char>>) -> PassView {
    PassView { targets: one + s.targets, at: one.len() + s.at, logs: logs + s.logs, ..s }
}

/// Further destinations change nothing before they are turned to.
proof fn lemma_with_more_step(s: PassView, two: Seq<TargetView>, event: EventView)
    requires
        laws::sound(s),
        s.awaits(event),
    ensures
        with_more(s, two).action() == s.action(),
        with_more(s, two).advanced(event) == with_more(s.advanced(event), two),
{
    assert((s.targets + two)[s.at] == s.targets[s.at]);
}

/// Destinations that have been left change nothing.
proof fn lemma_behind_step(
    s: PassView,
    one: Seq<TargetView>,
    logs: Seq<Seq<char>>,
    event: EventView,
)
    requires
        laws::sound(s),
        s.awaits(event),
    ensures
        behind(s, one, logs).advanced(event) == behind(s.advanced(event), one, logs),
{
    assert((one + s.targets)[one.len() + s.at] == s.targets[s.at]);
    assert forall|line: Seq<char>| #[trigger] (logs + s.logs).push(line) == logs + s.logs.push(
        line,
    ) by {
        assert((logs + s.logs).push(line) =~= logs + s.logs.push(line));
    }
}

/// Further destinations change nothing in a run that meets no rate limit.
proof fn lemma_with_more_run(
    pass: PassView,
    two: Seq<TargetView>,
    events: Seq<EventView>,
    more: Seq<EventView>,
    i: int,
)
    requires
        laws::sound(pass),
        laws::answered(pass, events),
        pass.budget == MAX_RETRY_WAIT,
        pass.stage !is Waiting,
        forall|k: int|
            0 <= k < events.len() && (#[trigger] events[k]) is Delivered
                ==> events[k]->Delivered_0 !is RetryAfter,
        0 <= i <= events.len(),
    ensures
        laws::state_at(with_more(pass, two), events + more, i) == with_more(
            laws::state_at(pass, events, i),
            two,
        ),
        laws::state_at(pass, events, i).budget == MAX_RETRY_WAIT,
        laws::state_at(pass, events, i).stage !is Waiting,
    decreases i,
{
    if i == 0 {
        assert(events.take(0) =~= seq![]);
        assert((events + more).take(0) =~= seq![]);
    } else {
        lemma_with_more_run(pass, two, events, more, i - 1);
        laws::lemma_run(pass, events, i - 1);
        laws::lemma_step(pass, events, i - 1);
        laws::lemma_step(with_more(pass, two), events + more, i - 1);
        let s = laws::state_at(pass, events, i - 1);
        assert(s.awaits(events[i - 1]));
        lemma_with_more_step(s, two, events[i - 1]);
    }
}

/// Destinations that have been left change nothing in a run.
proof fn lemma_behind_run(
    whole: PassView,
    events: Seq<EventView>,
    pass: PassView,
    one: Seq<TargetView>,
    logs: Seq<Seq<char>>,
    more: Seq<EventView>,
    j: int,
)
    requires
        laws::sound(pass),
        laws::answered(pass, more),
        laws::state_at(whole, events + more, events.len() as int) == behind(pass, one, logs),
        0 <= j <= more.len(),
    ensures
        laws::state_at(whole, events + more, events.len() + j) == behind(
            laws::state_at(pass, more, j),
            one,
            logs,
        ),
    decreases j,
{
    if j == 0 {
        assert(more.take(0) =~= seq![]);
    } else {
        lemma_behind_run(whole, events, pass, one, logs, more, j - 1);
        laws::lemma_run(pass, more, j - 1);
        laws::lemma_step(pass, more, j - 1);
        laws::lemma_step(whole, events + more, events.len() + j - 1);
        let s = laws::state_at(pass, more, j - 1);
        assert(s.awaits(more[j - 1]));
        assert((events + more)[events.len() + j - 1] == more[j - 1]);
        lemma_behind_step(s, one, logs, more[j - 1]);
    }
}

/// A pass over two lists starts with the first.
proof fn lemma_with_more_start(
    feed: Feed,
    entries: Seq<EntryView>,
    one: Seq<TargetView>,
    two: Seq<TargetView>,
)
    requires
        entries.len() > 0,
    ensures
        pass::begun(feed, entries, one + two) == with_more(pass::begun(feed, entries, one), two),
{
}

/// Where a pass over the first list ends, one over the second begins.
proof fn lemma_with_more_end(
    last: PassView,
    feed: Feed,
    entries: Seq<EntryView>,
    one: Seq<TargetView>,
    two: Seq<TargetView>,
)
    requires
        entries.len() > 0,
        laws::sound(last),
        last.stage is Finished,
        last.feed == feed,
        last.entries == entries,
        last.targets == one,
        last.budget == MAX_RETRY_WAIT,
    ensures
        with_more(last, two) == behind(pass::begun(feed, entries, two), one, last.logs),
{
    assert(last.logs + pass::begun(feed, entries, two).logs =~= last.logs);
}

/// Destinations that have been left take no action.
proof fn lemma_behind_action(s: PassView, one: Seq<TargetView>, logs: Seq<Seq<char>>)
    requires
        laws::sound(s),
    ensures
        behind(s, one, logs).action() == s.action(),
{
    if s.stage !is Finished {
        assert((one + s.targets)[one.len() + s.at] == s.targets[s.at]);
    }
}

/// A pass over two lists of destinations is a pass over one and then a pass over
/// the other, if the first meets no rate limit: it takes the same actions, and
/// logs the lines of the one and then those of the other.
pub proof fn law_a_pass_over_two_lists_is_one_after_the_other(
    feed: Feed,
    entries: Seq<EntryView>,
    one: Seq<TargetView>,
    two: Seq<TargetView>,
    first: Seq<EventView>,
    second: Seq<EventView>,
    i: int,
    j: int,
)
    requires
        entries.len() > 0,
        laws::answered(pass::begun(feed, entries, one), first),
        laws::action_at(pass::begun(feed, entries, one), first, first.len() as int) is Done,
        forall|k: int|
            0 <= k < first.len() && (#[trigger] first[k]) is Delivered
                ==> first[k]->Delivered_0 !is RetryAfter,
        laws::answered(pass::begun(feed, entries, two), second),
        0 <= i <= first.len(),
        0 <= j <= second.len(),
    ensures
        i < first.len() ==> laws::action_at(
            pass::begun(feed, entries, one + two),
            first + second,
            i,
        ) == laws::action_at(pass::begun(feed, entries, one), first, i),
        laws::action_at(
            pass::begun(feed, entries, one + two),
            first + second,
            first.len() + j,
        ) == laws::action_at(pass::begun(feed, entries, two), second, j),
        laws::state_at(
            pass::begun(feed, entries, one + two),
            first + second,
            first.len() + j,
        ).logs == laws::state_at(
            pass::begun(feed, entries, one),
            first,
            first.len() as int,
        ).logs + laws::state_at(pass::begun(feed, entries, two), second, j).logs,
{
    let whole = pass::begun(feed, entries, one + two);
    let pass = pass::begun(feed, entries, one);
    let next = pass::begun(feed, entries, two);
    let end = first.len() as int;
    let last = laws::state_at(pass, first, end);
    lemma_with_more_start(feed, entries, one, two);
    laws::lemma_begun(feed, entries, one);
    laws::lemma_begun(feed, entries, two);
    if i < first.len() {
        lemma_with_more_run(pass, two, first, second, i);
        laws::lemma_run(pass, first, i);
        let s = laws::state_at(pass, first, i);
        assert(s.awaits(first[i]));
        lemma_with_more_step(s, two, first[i]);
    }
    lemma_with_more_run(pass, two, first, second, end);
    laws::lemma_run(pass, first, end);
    lemma_with_more_end(last, feed, entries, one, two);
    lemma_behind_run(whole, first, next, one, last.logs, second, j);
    laws::lemma_run(next, second, j);
    lemma_behind_action(laws::state_at(next, second, j), one, last.logs);
}

} // verus!
