//! What holds of every pass, however its actions go.
//!
//! A run is a pass and the events it was given, each of them an answer to the
//! action that was due. The laws speak of the action that is due after the
//! first `i` events, and of the event that answers it.

use vstd::prelude::*;

use crate::message;
use crate::model;
use crate::model::{EntryView, Feed, Outcome, TargetView};
use crate::pass;
use crate::pass::{ActionView, EventView, PassView, StageView, MAX_RETRY_WAIT};
use crate::record;
use crate::record::SEEN_CAP;
use crate::text;

verus! {

/// The pass after `events`.
pub open spec fn after(pass: PassView, events: Seq<EventView>) -> PassView
    decreases events.len(),
{
    if events.len() == 0 {
        pass
    } else {
        after(pass, events.drop_last()).advanced(events.last())
    }
}

/// The pass after the first `i` of `events`.
pub open spec fn state_at(pass: PassView, events: Seq<EventView>, i: int) -> PassView {
    after(pass, events.take(i))
}

/// The action that is due after the first `i` of `events`.
pub open spec fn action_at(pass: PassView, events: Seq<EventView>, i: int) -> ActionView {
    state_at(pass, events, i).action()
}

/// Whether each of `events` answers the action that was due when it came.
pub open spec fn answered(pass: PassView, events: Seq<EventView>) -> bool {
    forall|i: int|
        0 <= i < events.len() ==> (#[trigger] state_at(pass, events, i)).awaits(events[i])
}

/// Whether no two entries share an id.
pub open spec fn distinct(entries: Seq<EntryView>) -> bool {
    model::ids(entries).no_duplicates()
}

impl PassView {
    /// The entries still to be delivered at the destination the pass is at, the
    /// current one first.
    pub open spec fn queue(self) -> Seq<EntryView> {
        match self.stage {
            StageView::Claiming { queue, .. } => queue,
            StageView::Sending { queue, .. } => queue,
            StageView::Waiting { queue, .. } => queue,
            StageView::GivingBack { queue, .. } => queue,
            _ => seq![],
        }
    }

    /// The entry that is being delivered.
    pub open spec fn current(self) -> EntryView {
        self.queue()[0]
    }

    /// The record with the current entry claimed.
    pub open spec fn claims(self) -> Seq<Seq<char>> {
        match self.stage {
            StageView::Claiming { record, .. } => record,
            StageView::Sending { record, .. } => record,
            StageView::Waiting { record, .. } => record,
            _ => seq![],
        }
    }

    /// Whether the current entry is claimed, or being claimed.
    pub open spec fn delivering(self) -> bool {
        self.stage is Claiming || self.stage is Sending || self.stage is Waiting
    }

    /// How many actions the destination the pass is at can still take.
    pub open spec fn patience(self) -> int {
        let left = 5 * self.queue().len();
        match self.stage {
            StageView::Reading => 5 * self.entries.len() as int + 2,
            StageView::Seeding => 1,
            StageView::Claiming { .. } => left as int,
            StageView::Sending { again, .. } => if again {
                left - 3
            } else {
                left - 1
            },
            StageView::Waiting { .. } => left - 2,
            StageView::GivingBack { .. } => left - 4,
            StageView::Finished => 0,
        }
    }
}

/// What every state of a run keeps: the pass stands at one of its destinations,
/// the current entry stands at the end of the record, and what is queued is
/// what is left of the fresh entries, in their order.
pub open spec fn sound(s: PassView) -> bool {
    &&& s.wf()
    &&& 0 <= s.at
    &&& s.at <= s.targets.len()
    &&& s.stage is Finished && s.entries.len() > 0 ==> s.at == s.targets.len()
    &&& s.budget <= MAX_RETRY_WAIT
    &&& s.delivering() ==> s.claims().last() == s.current().id
    &&& s.queue().len() <= s.entries.len()
    &&& s.queue().len() > 0 ==> exists|seen: Seq<Seq<char>>|
        s.queue().is_suffix_of(#[trigger] pass::fresh(s.entries, seen))
}

/// What every state of a run keeps while no two entries of the feed share an
/// id: no two queued entries do, and the record holds none of them but the
/// current one, at its end.
pub open spec fn unsent(s: PassView) -> bool {
    s.delivering() ==> {
        &&& distinct(s.queue())
        &&& !s.claims().drop_last().contains(s.current().id)
        &&& forall|k: int|
            0 < k < s.queue().len() ==> !s.claims().contains((#[trigger] s.queue()[k]).id)
    }
}

/// One event further.
pub proof fn lemma_step(pass: PassView, events: Seq<EventView>, i: int)
    requires
        0 <= i < events.len(),
    ensures
        state_at(pass, events, i + 1) == state_at(pass, events, i).advanced(events[i]),
{
    assert(events.take(i + 1).drop_last() =~= events.take(i));
}

/// The fresh entries are those the record does not hold, and no others.
pub proof fn law_fresh_is_what_the_record_lacks(
    entries: Seq<EntryView>,
    seen: Seq<Seq<char>>,
    entry: EntryView,
)
    ensures
        pass::fresh(entries, seen).contains(entry) <==> entries.contains(entry) && !seen.contains(
            entry.id,
        ),
        pass::fresh(entries, seen).len() <= entries.len(),
{
    let keep = |entry: EntryView| !seen.contains(entry.id);
    let kept = entries.filter(keep);
    let fresh = pass::fresh(entries, seen);
    entries.lemma_filter_len(keep);
    assert(fresh.len() == kept.len());
    if fresh.contains(entry) {
        let i = choose|i: int| 0 <= i < fresh.len() && fresh[i] == entry;
        assert(kept[kept.len() - 1 - i] == entry);
        entries.lemma_filter_pred(keep, kept.len() - 1 - i);
        assert(kept.contains(entry));
        entries.lemma_filter_contains_rev(keep, entry);
    }
    if entries.contains(entry) && !seen.contains(entry.id) {
        let i = choose|i: int| 0 <= i < entries.len() && entries[i] == entry;
        entries.lemma_filter_contains(keep, i);
        assert(kept.contains(entry));
        let j = choose|j: int| 0 <= j < kept.len() && kept[j] == entry;
        assert(fresh[kept.len() - 1 - j] == entry);
    }
}

/// A feed whose entries have distinct ids has fresh entries with distinct ids.
proof fn lemma_fresh_is_distinct(entries: Seq<EntryView>, seen: Seq<Seq<char>>)
    requires
        distinct(entries),
    ensures
        distinct(pass::fresh(entries, seen)),
{
    let keep = |entry: EntryView| !seen.contains(entry.id);
    lemma_filter_is_distinct(entries, keep);
    let kept = entries.filter(keep);
    let fresh = pass::fresh(entries, seen);
    assert forall|i: int, j: int| 0 <= i < j < fresh.len() implies model::ids(fresh)[i]
        != model::ids(fresh)[j] by {
        assert(fresh[i] == kept[kept.len() - 1 - i]);
        assert(fresh[j] == kept[kept.len() - 1 - j]);
        assert(model::ids(kept)[kept.len() - 1 - i] != model::ids(kept)[kept.len() - 1 - j]);
    }
}

proof fn lemma_filter_is_distinct(entries: Seq<EntryView>, keep: spec_fn(EntryView) -> bool)
    requires
        distinct(entries),
    ensures
        distinct(entries.filter(keep)),
    decreases entries.len(),
{
    reveal(Seq::filter);
    if entries.len() > 0 {
        let front = entries.drop_last();
        assert(model::ids(front) =~= model::ids(entries).drop_last());
        lemma_filter_is_distinct(front, keep);
        if keep(entries.last()) {
            let kept = front.filter(keep);
            assert forall|i: int| 0 <= i < kept.len() implies kept[i].id != entries.last().id by {
                assert(kept.contains(kept[i]));
                front.lemma_filter_contains_rev(keep, kept[i]);
                let j = choose|j: int| 0 <= j < front.len() && front[j] == kept[i];
                assert(model::ids(entries)[j] != model::ids(entries)[entries.len() - 1]);
            }
            assert(model::ids(entries.filter(keep)) =~= model::ids(kept).push(entries.last().id));
        }
    }
}

/// Every step keeps what a run keeps, leaves the feed and the destinations
/// alone, and never goes back to an earlier destination.
pub proof fn lemma_sound_step(s: PassView, event: EventView)
    requires
        sound(s),
        s.awaits(event),
    ensures
        sound(s.advanced(event)),
        s.advanced(event).feed == s.feed,
        s.advanced(event).entries == s.entries,
        s.advanced(event).targets == s.targets,
        s.at <= s.advanced(event).at <= s.at + 1,
{
    let t = s.advanced(event);
    match (s.stage, event) {
        (StageView::Reading, EventView::Record(Ok(Some(seen)))) => {
            let fresh = pass::fresh(s.entries, seen);
            if fresh.len() > 0 {
                law_fresh_is_what_the_record_lacks(s.entries, seen, fresh[0]);
                record::law_a_claim_is_recorded(seen, fresh[0].id);
                assert(fresh =~= fresh.skip(0));
                assert(t.queue().is_suffix_of(pass::fresh(s.entries, seen)));
            }
        },
        (StageView::Sending { record, queue, again }, EventView::Delivered(Outcome::Sent)) => {
            let rest = queue.drop_first();
            if rest.len() > 0 {
                record::law_a_claim_is_recorded(record, rest[0].id);
                let seen = choose|seen: Seq<Seq<char>>|
                    s.queue().is_suffix_of(#[trigger] pass::fresh(s.entries, seen));
                let fresh = pass::fresh(s.entries, seen);
                assert(rest =~= fresh.skip(fresh.len() - rest.len()));
                assert(t.queue().is_suffix_of(pass::fresh(s.entries, seen)));
            }
        },
        _ => {
            assert(t.queue().len() > 0 ==> t.queue() == s.queue());
        },
    }
    assert(t.wf());
    assert(t.delivering() ==> t.claims().last() == t.current().id);
    assert(t.queue().len() <= t.entries.len());
    assert(t.queue().len() > 0 ==> exists|seen: Seq<Seq<char>>|
        t.queue().is_suffix_of(#[trigger] pass::fresh(t.entries, seen)));
}

/// Every step keeps the queue apart from the record.
pub proof fn lemma_unsent_step(s: PassView, event: EventView)
    requires
        sound(s),
        unsent(s),
        distinct(s.entries),
        s.awaits(event),
    ensures
        unsent(s.advanced(event)),
{
    match (s.stage, event) {
        (StageView::Reading, EventView::Record(Ok(Some(seen)))) => {
            let fresh = pass::fresh(s.entries, seen);
            if fresh.len() > 0 {
                lemma_fresh_is_distinct(s.entries, seen);
                assert forall|k: int| 0 <= k < fresh.len() implies !seen.contains(
                    (#[trigger] fresh[k]).id,
                ) by {
                    assert(fresh.contains(fresh[k]));
                    law_fresh_is_what_the_record_lacks(s.entries, seen, fresh[k]);
                }
                lemma_claim_keeps_the_rest_unsent(seen, fresh);
            }
        },
        (StageView::Sending { record, queue, again }, EventView::Delivered(Outcome::Sent)) => {
            let rest = queue.drop_first();
            if rest.len() > 0 {
                assert(model::ids(rest) =~= model::ids(queue).drop_first());
                assert forall|k: int| 0 <= k < rest.len() implies !record.contains(
                    (#[trigger] rest[k]).id,
                ) by {
                    assert(rest[k] == s.queue()[k + 1]);
                }
                lemma_claim_keeps_the_rest_unsent(record, rest);
            }
        },
        _ => {},
    }
}

/// Claiming the first of a queue that the record knows nothing of puts it at
/// the end of the record, and nothing else of the queue in it.
proof fn lemma_claim_keeps_the_rest_unsent(record: Seq<Seq<char>>, queue: Seq<EntryView>)
    requires
        queue.len() > 0,
        distinct(queue),
        forall|k: int| 0 <= k < queue.len() ==> !record.contains((#[trigger] queue[k]).id),
    ensures
        !record::claimed(record, queue[0].id).drop_last().contains(queue[0].id),
        forall|k: int|
            0 < k < queue.len() ==> !record::claimed(record, queue[0].id).contains(
                (#[trigger] queue[k]).id,
            ),
{
    let id = queue[0].id;
    let claims = record::claimed(record, id);
    record::law_a_claim_is_recorded(record, id);
    record::law_a_claim_can_be_given_back(record, id);
    assert(!record.contains(queue[0].id));
    assert forall|k: int| 0 < k < queue.len() implies !claims.contains(
        (#[trigger] queue[k]).id,
    ) by {
        assert(model::ids(queue)[0] != model::ids(queue)[k]);
        if claims.contains(queue[k].id) {
            let i = choose|i: int| 0 <= i < claims.len() && claims[i] == queue[k].id;
            let grown = record.push(id);
            assert(claims[i] == grown[i + grown.len() - claims.len()]);
            assert(record.contains(queue[k].id));
        }
    }
}

/// What holds of every state of a run.
pub proof fn lemma_run(pass: PassView, events: Seq<EventView>, i: int)
    requires
        sound(pass),
        answered(pass, events),
        0 <= i <= events.len(),
    ensures
        sound(state_at(pass, events, i)),
        state_at(pass, events, i).feed == pass.feed,
        state_at(pass, events, i).entries == pass.entries,
        state_at(pass, events, i).targets == pass.targets,
        distinct(pass.entries) && unsent(pass) ==> unsent(state_at(pass, events, i)),
    decreases i,
{
    if i == 0 {
        assert(events.take(0) =~= seq![]);
    } else {
        lemma_run(pass, events, i - 1);
        lemma_step(pass, events, i - 1);
        let before = state_at(pass, events, i - 1);
        lemma_sound_step(before, events[i - 1]);
        if distinct(pass.entries) && unsent(pass) {
            lemma_unsent_step(before, events[i - 1]);
        }
    }
}

/// A pass starts sound.
pub proof fn lemma_begun(feed: Feed, entries: Seq<EntryView>, targets: Seq<TargetView>)
    ensures
        sound(pass::begun(feed, entries, targets)),
        unsent(pass::begun(feed, entries, targets)),
{
}

/// What comes just before a send: the claim, or the wait before a second send.
pub proof fn lemma_before_a_send(s: PassView, event: EventView)
    requires
        sound(s),
        s.awaits(event),
        s.advanced(event).stage is Sending,
    ensures
        s.advanced(event).at == s.at,
        s.advanced(event).stage->Sending_queue == s.queue(),
        s.advanced(event).stage->Sending_record == s.claims(),
        s.advanced(event).stage->Sending_again ==> s.stage is Waiting && event is Waited,
        !s.advanced(event).stage->Sending_again ==> s.stage is Claiming && event is Stored
            && event->Stored_0 is Ok,
{
}

/// What comes just before a wait: a first send that met a rate limit which fits
/// the budget.
pub proof fn lemma_before_a_wait(s: PassView, event: EventView)
    requires
        sound(s),
        s.awaits(event),
        s.advanced(event).stage is Waiting,
    ensures
        s.advanced(event).at == s.at,
        s.advanced(event).queue() == s.queue(),
        s.advanced(event).claims() == s.claims(),
        s.stage is Sending && !s.stage->Sending_again,
        event == EventView::Delivered(
            Outcome::RetryAfter(s.advanced(event).stage->Waiting_seconds),
        ),
{
}

/// Whether the `i`th event says that a record ending with `id` was stored under
/// `key`.
pub open spec fn recorded_at(
    pass: PassView,
    events: Seq<EventView>,
    i: int,
    key: Seq<char>,
    id: Seq<char>,
) -> bool {
    &&& 0 <= i < events.len()
    &&& events[i] is Stored
    &&& events[i]->Stored_0 is Ok
    &&& action_at(pass, events, i) is Put
    &&& action_at(pass, events, i)->Put_key == key
    &&& action_at(pass, events, i)->record.len() > 0
    &&& action_at(pass, events, i)->record.last() == id
}

/// Whether the action due after `i` events sends for the second time what the
/// one two events before sent, met by a rate limit that was sat out since.
pub open spec fn repeats_a_refused_send(pass: PassView, events: Seq<EventView>, i: int) -> bool {
    &&& 2 <= i
    &&& action_at(pass, events, i - 2) == action_at(pass, events, i)
    &&& events[i - 2] is Delivered
    &&& events[i - 2]->Delivered_0 is RetryAfter
    &&& action_at(pass, events, i - 1) == (ActionView::Wait {
        seconds: events[i - 2]->Delivered_0->RetryAfter_0,
    })
    &&& events[i - 1] is Waited
}

/// Every entry is recorded before it is sent, never after: what is sent is an
/// entry of the feed, and just before it, its id was stored at the end of the
/// destination's record; or it is sent again after a rate limit, and its id was
/// stored just before the first time.
pub proof fn law_entries_are_recorded_before_they_are_sent(
    feed: Feed,
    entries: Seq<EntryView>,
    targets: Seq<TargetView>,
    events: Seq<EventView>,
    i: int,
)
    requires
        answered(pass::begun(feed, entries, targets), events),
        0 <= i <= events.len(),
        action_at(pass::begun(feed, entries, targets), events, i) is Send,
    ensures
        ({
            let pass = pass::begun(feed, entries, targets);
            let state = state_at(pass, events, i);
            let key = model::record_key(feed, state.target().key);
            let id = state.current().id;
            &&& entries.contains(state.current())
            &&& action_at(pass, events, i) == ActionView::Send {
                target: state.target(),
                text: message::message(feed, state.current()),
            }
            &&& recorded_at(pass, events, i - 1, key, id) || {
                &&& repeats_a_refused_send(pass, events, i)
                &&& recorded_at(pass, events, i - 3, key, id)
            }
        }),
{
    let pass = pass::begun(feed, entries, targets);
    lemma_begun(feed, entries, targets);
    lemma_run(pass, events, i);
    let state = state_at(pass, events, i);
    lemma_queue_is_from_the_feed(state);
    assert(events.take(0) =~= seq![]);
    assert(i > 0);
    lemma_run(pass, events, i - 1);
    lemma_step(pass, events, i - 1);
    let before = state_at(pass, events, i - 1);
    lemma_before_a_send(before, events[i - 1]);
    if state.stage->Sending_again {
        assert(i > 1);
        lemma_run(pass, events, i - 2);
        lemma_step(pass, events, i - 2);
        let first = state_at(pass, events, i - 2);
        lemma_before_a_wait(first, events[i - 2]);
        assert(i > 2);
        lemma_run(pass, events, i - 3);
        lemma_step(pass, events, i - 3);
        lemma_before_a_send(state_at(pass, events, i - 3), events[i - 3]);
        assert(repeats_a_refused_send(pass, events, i));
    }
}

/// What is queued comes from the feed.
pub proof fn lemma_queue_is_from_the_feed(s: PassView)
    requires
        sound(s),
    ensures
        forall|k: int| 0 <= k < s.queue().len() ==> s.entries.contains(#[trigger] s.queue()[k]),
{
    if s.queue().len() > 0 {
        let seen = choose|seen: Seq<Seq<char>>|
            s.queue().is_suffix_of(#[trigger] pass::fresh(s.entries, seen));
        let fresh = pass::fresh(s.entries, seen);
        assert forall|k: int| 0 <= k < s.queue().len() implies s.entries.contains(
            #[trigger] s.queue()[k],
        ) by {
            assert(s.queue()[k] == fresh[k + fresh.len() - s.queue().len()]);
            assert(fresh.contains(s.queue()[k]));
            law_fresh_is_what_the_record_lacks(s.entries, seen, s.queue()[k]);
        }
    }
}

/// What has not been claimed is not sent: after a record could not be stored,
/// the destination is left.
pub proof fn law_nothing_is_sent_after_a_failed_put(pass: PassView, message: Seq<char>)
    requires
        pass.wf(),
        pass.action() is Put,
    ensures
        pass.advanced(EventView::Stored(Err(message))).at == pass.at + 1,
        pass.advanced(EventView::Stored(Err(message))).action() is Get || pass.advanced(
            EventView::Stored(Err(message)),
        ).action() is Done,
{
}

/// A destination takes only so many actions, one fewer with every event that
/// does not leave it.
pub proof fn lemma_patience(s: PassView, event: EventView)
    requires
        sound(s),
        s.awaits(event),
    ensures
        s.patience() > 0,
        s.advanced(event).at == s.at ==> 0 < s.advanced(event).patience() < s.patience(),
        s.advanced(event).at == s.at ==> s.advanced(event).stage !is Finished
            && s.advanced(event).stage !is Reading,
        s.advanced(event).at != s.at ==> s.advanced(event) == (PassView {
            logs: s.advanced(event).logs,
            ..s.moved_on()
        }),
{
    if s.stage is Reading && event->Record_0 is Ok && event->Record_0->Ok_0 is Some {
        let seen = event->Record_0->Ok_0->0;
        let fresh = pass::fresh(s.entries, seen);
        if fresh.len() > 0 {
            law_fresh_is_what_the_record_lacks(s.entries, seen, fresh[0]);
        }
    }
}

/// While a destination is being delivered to, the queue stays or loses its
/// front.
pub proof fn lemma_queue_step(s: PassView, event: EventView)
    requires
        sound(s),
        s.awaits(event),
        s.queue().len() > 0,
        s.advanced(event).at == s.at,
    ensures
        s.advanced(event).queue() == s.queue() || s.advanced(event).queue()
            == s.queue().drop_first(),
        s.advanced(event).queue().len() > 0,
        s.advanced(event).stage !is Seeding,
{
}

/// From one send to a later one at the same destination, the queue only loses
/// what stands at its front, and patience only runs out.
proof fn lemma_between_sends(pass: PassView, events: Seq<EventView>, i: int, j: int)
    requires
        sound(pass),
        answered(pass, events),
        0 <= i <= j <= events.len(),
        state_at(pass, events, i).stage is Sending,
        state_at(pass, events, j).at == state_at(pass, events, i).at,
    ensures
        state_at(pass, events, j).queue().len() > 0,
        state_at(pass, events, j).queue().is_suffix_of(state_at(pass, events, i).queue()),
        state_at(pass, events, j).patience() <= state_at(pass, events, i).patience() - (j - i),
        state_at(pass, events, j).stage !is Reading,
        state_at(pass, events, j).stage !is Seeding,
        state_at(pass, events, j).stage !is Finished,
    decreases j - i,
{
    let first = state_at(pass, events, i);
    let last = state_at(pass, events, j);
    lemma_run(pass, events, i);
    if i == j {
        assert(first.queue() =~= first.queue().skip(0));
    } else {
        lemma_run(pass, events, j - 1);
        lemma_step(pass, events, j - 1);
        let before = state_at(pass, events, j - 1);
        lemma_at_only_grows(pass, events, i, j - 1);
        lemma_sound_step(before, events[j - 1]);
        lemma_between_sends(pass, events, i, j - 1);
        lemma_patience(before, events[j - 1]);
        lemma_queue_step(before, events[j - 1]);
        let start = first.queue();
        let middle = before.queue();
        let end = last.queue();
        assert(middle == start.skip(start.len() - middle.len()));
        if end == middle.drop_first() {
            assert(end =~= start.skip(start.len() - end.len()));
        }
    }
}

/// A pass never goes back to an earlier destination.
pub proof fn lemma_at_only_grows(pass: PassView, events: Seq<EventView>, i: int, j: int)
    requires
        sound(pass),
        answered(pass, events),
        0 <= i <= j <= events.len(),
    ensures
        state_at(pass, events, i).at <= state_at(pass, events, j).at,
    decreases j - i,
{
    if i < j {
        lemma_at_only_grows(pass, events, i, j - 1);
        lemma_run(pass, events, j - 1);
        lemma_step(pass, events, j - 1);
        lemma_sound_step(state_at(pass, events, j - 1), events[j - 1]);
    }
}

/// Nothing is sent twice: if two sends at one destination are of the same
/// entry, the first was refused with a rate limit, which proves that it was not
/// posted, and the second is the one repetition after sitting that limit out.
pub proof fn law_nothing_is_sent_twice(
    feed: Feed,
    entries: Seq<EntryView>,
    targets: Seq<TargetView>,
    events: Seq<EventView>,
    i: int,
    j: int,
)
    requires
        distinct(entries),
        answered(pass::begun(feed, entries, targets), events),
        0 <= i < j <= events.len(),
        action_at(pass::begun(feed, entries, targets), events, i) is Send,
        action_at(pass::begun(feed, entries, targets), events, j) is Send,
        state_at(pass::begun(feed, entries, targets), events, i).at == state_at(
            pass::begun(feed, entries, targets),
            events,
            j,
        ).at,
        state_at(pass::begun(feed, entries, targets), events, i).current().id == state_at(
            pass::begun(feed, entries, targets),
            events,
            j,
        ).current().id,
    ensures
        j == i + 2,
        repeats_a_refused_send(pass::begun(feed, entries, targets), events, j),
{
    let pass = pass::begun(feed, entries, targets);
    lemma_begun(feed, entries, targets);
    lemma_run(pass, events, i);
    lemma_run(pass, events, j);
    let first = state_at(pass, events, i);
    let second = state_at(pass, events, j);
    lemma_between_sends(pass, events, i, j);
    let k = first.queue().len() - second.queue().len();
    assert(second.queue()[0] == first.queue()[k]);
    if k > 0 {
        assert(model::ids(first.queue())[0] != model::ids(first.queue())[k]);
    }
    assert(second.stage->Sending_again);
    assert(!first.stage->Sending_again);
    assert(j > 1);
    lemma_run(pass, events, j - 1);
    lemma_step(pass, events, j - 1);
    lemma_before_a_send(state_at(pass, events, j - 1), events[j - 1]);
    assert(j == i + 2);
    lemma_step(pass, events, i);
    lemma_before_a_wait(first, events[i]);
}

/// Whether `id` stands in `record` with just `n` ids behind it.
pub open spec fn stands_before(record: Seq<Seq<char>>, id: Seq<char>, n: int) -> bool {
    0 <= n < record.len() && record[record.len() - 1 - n] == id
}

/// A claim pushes an id no further than one towards the front.
proof fn lemma_stands_before(record: Seq<Seq<char>>, id: Seq<char>, n: int, new: Seq<char>)
    requires
        stands_before(record, id, n),
        n + 1 < SEEN_CAP,
    ensures
        stands_before(record::claimed(record, new), id, n + 1),
{
}

/// After an entry was delivered, its id stays in the record while the rest of
/// the queue is claimed behind it.
proof fn lemma_delivered_stays(pass: PassView, events: Seq<EventView>, i: int, j: int)
    requires
        sound(pass),
        pass.entries.len() <= SEEN_CAP,
        answered(pass, events),
        0 <= i < j <= events.len(),
        state_at(pass, events, i).stage is Sending,
        events[i] == EventView::Delivered(Outcome::Sent),
        state_at(pass, events, j).at == state_at(pass, events, i).at,
    ensures
        ({
            let state = state_at(pass, events, j);
            let id = state_at(pass, events, i).current().id;
            let since = state_at(pass, events, i).queue().len() - state.queue().len();
            &&& 0 < since < SEEN_CAP
            &&& state.delivering() ==> stands_before(state.claims(), id, since)
            &&& state.stage is GivingBack ==> stands_before(
                state.stage->GivingBack_record,
                id,
                since - 1,
            )
        }),
    decreases j - i,
{
    let first = state_at(pass, events, i);
    let id = first.current().id;
    let before = state_at(pass, events, j - 1);
    let state = state_at(pass, events, j);
    lemma_run(pass, events, i);
    lemma_run(pass, events, j - 1);
    lemma_step(pass, events, j - 1);
    lemma_between_sends(pass, events, i, j);
    if j == i + 1 {
        assert(stands_before(first.claims(), id, 0));
        lemma_stands_before(first.claims(), id, 0, state.current().id);
    } else {
        lemma_at_only_grows(pass, events, i, j - 1);
        lemma_sound_step(before, events[j - 1]);
        lemma_between_sends(pass, events, i, j - 1);
        lemma_delivered_stays(pass, events, i, j - 1);
        lemma_queue_step(before, events[j - 1]);
        let since = first.queue().len() - before.queue().len();
        if before.stage is Sending && events[j - 1] == EventView::Delivered(Outcome::Sent) {
            lemma_stands_before(before.claims(), id, since, state.current().id);
        } else if state.stage is GivingBack {
            assert(state.stage->GivingBack_record == before.claims().drop_last());
        }
    }
}

/// What was delivered stays recorded: every record stored later for the
/// destination holds its id, so that no pass that reads such a record finds the
/// entry fresh, whatever the feed shows by then. This holds while the feed
/// shows no more entries than a record has room for.
pub proof fn law_what_was_delivered_stays_recorded(
    feed: Feed,
    entries: Seq<EntryView>,
    targets: Seq<TargetView>,
    events: Seq<EventView>,
    i: int,
    j: int,
    later: Seq<EntryView>,
)
    requires
        entries.len() <= SEEN_CAP,
        answered(pass::begun(feed, entries, targets), events),
        0 <= i < j <= events.len(),
        events[i] == EventView::Delivered(Outcome::Sent),
        action_at(pass::begun(feed, entries, targets), events, j) is Put,
        state_at(pass::begun(feed, entries, targets), events, j).at == state_at(
            pass::begun(feed, entries, targets),
            events,
            i,
        ).at,
    ensures
        ({
            let pass = pass::begun(feed, entries, targets);
            let id = state_at(pass, events, i).current().id;
            let record = action_at(pass, events, j)->record;
            &&& record.contains(id)
            &&& forall|entry: EntryView|
                entry.id == id ==> !(#[trigger] pass::fresh(later, record).contains(entry))
        }),
{
    let pass = pass::begun(feed, entries, targets);
    lemma_begun(feed, entries, targets);
    assert(state_at(pass, events, i).awaits(events[i]));
    lemma_delivered_stays(pass, events, i, j);
    lemma_between_sends(pass, events, i, j);
    let id = state_at(pass, events, i).current().id;
    let record = action_at(pass, events, j)->record;
    assert(record.contains(id));
    assert forall|entry: EntryView| entry.id == id implies !(#[trigger] pass::fresh(
        later,
        record,
    ).contains(entry)) by {
        law_fresh_is_what_the_record_lacks(later, record, entry);
    }
}

/// A filtered list keeps the order of the list.
proof fn lemma_filter_keeps_order(
    entries: Seq<EntryView>,
    keep: spec_fn(EntryView) -> bool,
    k: int,
    l: int,
) -> (r: (int, int))
    requires
        0 <= k < l < entries.filter(keep).len(),
    ensures
        0 <= r.0 < r.1 < entries.len(),
        entries[r.0] == entries.filter(keep)[k],
        entries[r.1] == entries.filter(keep)[l],
    decreases entries.len(),
{
    reveal(Seq::filter);
    let kept = entries.filter(keep);
    let front = entries.drop_last();
    if keep(entries.last()) && l == kept.len() - 1 {
        let earlier = front.filter(keep);
        assert(earlier[k] == kept[k]);
        assert(earlier.contains(kept[k]));
        front.lemma_filter_contains_rev(keep, kept[k]);
        let a = choose|a: int| 0 <= a < front.len() && front[a] == kept[k];
        (a, entries.len() - 1)
    } else {
        lemma_filter_keeps_order(front, keep, k, l)
    }
}

/// Entries are sent oldest first: of two sends at one destination, the later
/// one is of an entry nearer to the top of the feed, or of the same.
pub proof fn law_entries_are_sent_oldest_first(
    feed: Feed,
    entries: Seq<EntryView>,
    targets: Seq<TargetView>,
    events: Seq<EventView>,
    i: int,
    j: int,
)
    requires
        answered(pass::begun(feed, entries, targets), events),
        0 <= i < j <= events.len(),
        action_at(pass::begun(feed, entries, targets), events, i) is Send,
        action_at(pass::begun(feed, entries, targets), events, j) is Send,
        state_at(pass::begun(feed, entries, targets), events, i).at == state_at(
            pass::begun(feed, entries, targets),
            events,
            j,
        ).at,
    ensures
        exists|a: int, b: int|
            {
                &&& 0 <= b <= a < entries.len()
                &&& #[trigger] entries[a] == state_at(
                    pass::begun(feed, entries, targets),
                    events,
                    i,
                ).current()
                &&& #[trigger] entries[b] == state_at(
                    pass::begun(feed, entries, targets),
                    events,
                    j,
                ).current()
            },
{
    let pass = pass::begun(feed, entries, targets);
    lemma_begun(feed, entries, targets);
    lemma_run(pass, events, i);
    lemma_between_sends(pass, events, i, j);
    let first = state_at(pass, events, i);
    let second = state_at(pass, events, j);
    let seen = choose|seen: Seq<Seq<char>>|
        first.queue().is_suffix_of(#[trigger] pass::fresh(entries, seen));
    let keep = |entry: EntryView| !seen.contains(entry.id);
    let kept = entries.filter(keep);
    let fresh = pass::fresh(entries, seen);
    let p = fresh.len() - first.queue().len();
    let q = fresh.len() - second.queue().len();
    assert(first.current() == fresh[p]);
    assert(second.current() == first.queue()[q - p]);
    assert(second.current() == fresh[q]);
    if p == q {
        lemma_queue_is_from_the_feed(first);
        assert(entries.contains(first.queue()[0]));
        let a = choose|a: int| 0 <= a < entries.len() && entries[a] == first.current();
        assert(entries[a] == second.current());
    } else {
        let (b, a) = lemma_filter_keeps_order(entries, keep, kept.len() - 1 - q, kept.len() - 1 - p);
        assert(entries[a] == first.current() && entries[b] == second.current());
    }
}

/// What a destination with the record `seen` answers while everything goes
/// well: its record, and then for each of `count` entries that it is recorded
/// and that it is sent.
pub open spec fn all_well(seen: Seq<Seq<char>>, count: nat) -> Seq<EventView>
    decreases count,
{
    if count == 0 {
        seq![EventView::Record(Ok(Some(seen)))]
    } else {
        all_well(seen, (count - 1) as nat).push(EventView::Stored(Ok(()))).push(
            EventView::Delivered(Outcome::Sent),
        )
    }
}

/// While everything goes well, the queue is worked off from its front.
proof fn lemma_all_well(pass: PassView, seen: Seq<Seq<char>>, count: nat)
    requires
        pass.stage is Reading,
        count <= pass::fresh(pass.entries, seen).len(),
    ensures
        after(pass, all_well(seen, count)) == pass.turned_to(
            record::claimed_all(
                seen,
                model::ids(pass::fresh(pass.entries, seen).take(count as int)),
            ),
            pass::fresh(pass.entries, seen).skip(count as int),
        ),
    decreases count,
{
    let fresh = pass::fresh(pass.entries, seen);
    let events = all_well(seen, count);
    if count == 0 {
        assert(events.drop_last() =~= seq![]);
        reveal_with_fuel(after, 2);
        assert(fresh.skip(0) =~= fresh);
        assert(model::ids(fresh.take(0)) =~= seq![]);
    } else {
        let n = (count - 1) as nat;
        lemma_all_well(pass, seen, n);
        let done = all_well(seen, n);
        let stored = done.push(EventView::Stored(Ok(())));
        assert(events.drop_last() =~= stored);
        assert(stored.drop_last() =~= done);
        let ids = model::ids(fresh.take(count as int));
        assert(ids.drop_last() =~= model::ids(fresh.take(n as int)));
        assert(ids.last() == fresh[n as int].id);
        assert(fresh.skip(n as int).drop_first() =~= fresh.skip(count as int));
        assert(fresh.skip(n as int)[0] == fresh[n as int]);
        let claiming = after(pass, done);
        assert(claiming.stage is Claiming);
        assert(after(pass, stored) == claiming.advanced(EventView::Stored(Ok(()))));
        assert(after(pass, stored).stage is Sending);
    }
}

/// Every fresh entry reaches a destination where everything goes well: one
/// after the other is recorded and then sent there, and after the last of them
/// the destination is left.
pub proof fn law_every_fresh_entry_is_delivered(pass: PassView, seen: Seq<Seq<char>>, k: nat)
    requires
        pass.stage is Reading,
        k <= pass::fresh(pass.entries, seen).len(),
    ensures
        ({
            let fresh = pass::fresh(pass.entries, seen);
            let record = record::claimed_all(seen, model::ids(fresh.take(k as int)));
            let due = after(pass, all_well(seen, k));
            if k < fresh.len() {
                &&& due.action() == ActionView::Put {
                    key: pass.key(),
                    record: record::claimed(record, fresh[k as int].id),
                }
                &&& due.advanced(EventView::Stored(Ok(()))).action() == ActionView::Send {
                    target: pass.target(),
                    text: message::message(pass.feed, fresh[k as int]),
                }
            } else {
                due == pass.moved_on()
            }
        }),
{
    lemma_all_well(pass, seen, k);
}

/// Nothing is resent once a destination is up to date: with every fresh entry
/// claimed, the record leaves nothing of the feed fresh, as long as the claims
/// push out nothing that the feed still shows.
pub proof fn law_nothing_is_fresh_once_claimed(entries: Seq<EntryView>, seen: Seq<Seq<char>>)
    requires
        pass::fresh(entries, seen).len() <= SEEN_CAP,
        forall|k: int|
            0 <= k < entries.len() && seen.contains((#[trigger] entries[k]).id) ==> record::latest(
                seen,
                SEEN_CAP - pass::fresh(entries, seen).len(),
            ).contains(entries[k].id),
    ensures
        pass::fresh(
            entries,
            record::claimed_all(seen, model::ids(pass::fresh(entries, seen))),
        ).len() == 0,
{
    let fresh = pass::fresh(entries, seen);
    let ids = model::ids(fresh);
    let record = record::claimed_all(seen, ids);
    let next = pass::fresh(entries, record);
    if next.len() > 0 {
        let entry = next[0];
        assert(next.contains(entry));
        law_fresh_is_what_the_record_lacks(entries, record, entry);
        law_fresh_is_what_the_record_lacks(entries, seen, entry);
        if fresh.len() > 0 {
            record::law_claims_gather(seen, ids);
        }
        if seen.contains(entry.id) {
            let k = choose|k: int| 0 <= k < entries.len() && entries[k] == entry;
            assert(seen.contains(entries[k].id));
            let kept = record::latest(seen, SEEN_CAP - fresh.len());
            let i = choose|i: int| 0 <= i < kept.len() && kept[i] == entry.id;
            if fresh.len() > 0 {
                assert((seen + ids)[i + seen.len() - kept.len()] == entry.id);
                assert(record[i + record.len() - ids.len() - kept.len()] == entry.id);
            }
        } else {
            let i = choose|i: int| 0 <= i < fresh.len() && fresh[i] == entry;
            assert(ids[i] == entry.id);
            assert((seen + ids)[seen.len() + i] == entry.id);
            assert(record[record.len() - ids.len() + i] == entry.id);
        }
    }
}

/// The seconds waited in answer to the first `i` actions.
pub open spec fn waited(pass: PassView, events: Seq<EventView>, i: int) -> int
    decreases i,
{
    if i <= 0 {
        0
    } else {
        waited(pass, events, i - 1) + match action_at(pass, events, i - 1) {
            ActionView::Wait { seconds } => seconds as int,
            _ => 0,
        }
    }
}

/// The waits of a pass, all together, fit its budget. A rate limit that would
/// go past it is not waited out.
pub proof fn law_waits_fit_the_budget(
    feed: Feed,
    entries: Seq<EntryView>,
    targets: Seq<TargetView>,
    events: Seq<EventView>,
)
    requires
        answered(pass::begun(feed, entries, targets), events),
    ensures
        waited(pass::begun(feed, entries, targets), events, events.len() as int) <= MAX_RETRY_WAIT,
{
    lemma_begun(feed, entries, targets);
    lemma_budget(pass::begun(feed, entries, targets), events, events.len() as int);
}

proof fn lemma_budget(pass: PassView, events: Seq<EventView>, i: int)
    requires
        sound(pass),
        pass.stage !is Waiting,
        pass.budget == MAX_RETRY_WAIT,
        answered(pass, events),
        0 <= i <= events.len(),
    ensures
        waited(pass, events, i) + state_at(pass, events, i).budget + match state_at(
            pass,
            events,
            i,
        ).action() {
            ActionView::Wait { seconds } => seconds as int,
            _ => 0,
        } == MAX_RETRY_WAIT,
    decreases i,
{
    if i == 0 {
        assert(events.take(0) =~= seq![]);
    } else {
        lemma_budget(pass, events, i - 1);
        lemma_run(pass, events, i - 1);
        lemma_step(pass, events, i - 1);
    }
}

/// The keys read by the first `i` actions, in order.
pub open spec fn keys_read(pass: PassView, events: Seq<EventView>, i: int) -> Seq<Seq<char>>
    decreases i,
{
    if i <= 0 {
        seq![]
    } else {
        match action_at(pass, events, i - 1) {
            ActionView::Get { key } => keys_read(pass, events, i - 1).push(key),
            _ => keys_read(pass, events, i - 1),
        }
    }
}

/// The record keys of `targets`.
pub open spec fn keys_of(feed: Feed, targets: Seq<TargetView>) -> Seq<Seq<char>> {
    targets.map_values(|target: TargetView| model::record_key(feed, target.key))
}

/// A failing destination blocks no other: however the actions go, a pass that
/// is over has turned to every destination, once and in order.
pub proof fn law_every_destination_is_visited_once(
    feed: Feed,
    entries: Seq<EntryView>,
    targets: Seq<TargetView>,
    events: Seq<EventView>,
)
    requires
        entries.len() > 0,
        answered(pass::begun(feed, entries, targets), events),
        action_at(pass::begun(feed, entries, targets), events, events.len() as int) is Done,
    ensures
        keys_read(pass::begun(feed, entries, targets), events, events.len() as int) == keys_of(
            feed,
            targets,
        ),
{
    let pass = pass::begun(feed, entries, targets);
    lemma_begun(feed, entries, targets);
    lemma_run(pass, events, events.len() as int);
    lemma_keys_read(pass, events, events.len() as int);
    assert(keys_of(feed, targets).take(targets.len() as int) =~= keys_of(feed, targets));
}

proof fn lemma_keys_read(pass: PassView, events: Seq<EventView>, i: int)
    requires
        sound(pass),
        pass.at == 0,
        pass.stage is Reading || pass.stage is Finished,
        answered(pass, events),
        0 <= i <= events.len(),
    ensures
        ({
            let state = state_at(pass, events, i);
            let keys = keys_of(pass.feed, pass.targets);
            keys_read(pass, events, i) == keys.take(
                if state.stage is Reading || state.stage is Finished {
                    state.at
                } else {
                    state.at + 1
                },
            )
        }),
    decreases i,
{
    let keys = keys_of(pass.feed, pass.targets);
    if i == 0 {
        assert(events.take(0) =~= seq![]);
        assert(keys.take(0) =~= seq![]);
    } else {
        lemma_keys_read(pass, events, i - 1);
        lemma_run(pass, events, i - 1);
        lemma_run(pass, events, i);
        lemma_step(pass, events, i - 1);
        let before = state_at(pass, events, i - 1);
        lemma_patience(before, events[i - 1]);
        lemma_sound_step(before, events[i - 1]);
        if before.stage is Reading {
            assert(keys.take(before.at + 1) =~= keys.take(before.at).push(keys[before.at]));
        }
    }
}

/// How many actions a pass can still take.
pub open spec fn actions_left(s: PassView) -> int {
    if s.stage is Finished {
        0
    } else {
        (s.targets.len() - s.at - 1) * (5 * s.entries.len() + 2) + s.patience()
    }
}

/// Every pass ends, however its actions go, after so many of them at most: two
/// for each destination, and five for each entry there.
pub proof fn law_a_pass_ends(
    feed: Feed,
    entries: Seq<EntryView>,
    targets: Seq<TargetView>,
    events: Seq<EventView>,
)
    requires
        answered(pass::begun(feed, entries, targets), events),
    ensures
        events.len() <= targets.len() * (5 * entries.len() + 2),
{
    let pass = pass::begun(feed, entries, targets);
    let turn = 5 * entries.len() + 2;
    lemma_begun(feed, entries, targets);
    lemma_actions_left(pass, events, events.len() as int);
    assert((targets.len() - 1) * turn + turn == targets.len() * turn) by (nonlinear_arith);
    assert(0 <= targets.len() * turn) by (nonlinear_arith);
}

proof fn lemma_actions_left(pass: PassView, events: Seq<EventView>, i: int)
    requires
        sound(pass),
        answered(pass, events),
        0 <= i <= events.len(),
    ensures
        0 <= actions_left(state_at(pass, events, i)) <= actions_left(pass) - i,
    decreases i,
{
    lemma_run(pass, events, i);
    let state = state_at(pass, events, i);
    let turn = 5 * pass.entries.len() + 2;
    if i == 0 {
        assert(events.take(0) =~= seq![]);
        if pass.stage !is Finished {
            assert(0 <= (pass.targets.len() - pass.at - 1) * turn) by (nonlinear_arith)
                requires
                    pass.targets.len() - pass.at - 1 >= 0,
                    turn >= 0,
            ;
        }
    } else {
        lemma_actions_left(pass, events, i - 1);
        lemma_run(pass, events, i - 1);
        lemma_step(pass, events, i - 1);
        let before = state_at(pass, events, i - 1);
        lemma_patience(before, events[i - 1]);
        lemma_sound_step(before, events[i - 1]);
        let left = state.targets.len() - state.at - 1;
        if state.stage !is Finished {
            assert(0 <= left * turn) by (nonlinear_arith)
                requires
                    left >= 0,
                    turn >= 0,
            ;
            assert((left + 1) * turn == left * turn + turn) by (nonlinear_arith);
        }
        let before_left = before.targets.len() - before.at - 1;
        assert(0 <= before_left * turn) by (nonlinear_arith)
            requires
                before_left >= 0,
                turn >= 0,
        ;
    }
}

/// A destination whose record holds every entry of the feed is left alone.
pub proof fn law_up_to_date_destinations_are_left_alone(pass: PassView, seen: Seq<Seq<char>>)
    requires
        pass.stage is Reading,
        forall|k: int|
            0 <= k < pass.entries.len() ==> seen.contains((#[trigger] pass.entries[k]).id),
    ensures
        pass.advanced(EventView::Record(Ok(Some(seen)))) == pass.moved_on(),
{
    let fresh = pass::fresh(pass.entries, seen);
    if fresh.len() > 0 {
        assert(fresh.contains(fresh[0]));
        law_fresh_is_what_the_record_lacks(pass.entries, seen, fresh[0]);
        let k = choose|k: int| 0 <= k < pass.entries.len() && pass.entries[k] == fresh[0];
        assert(seen.contains(pass.entries[k].id));
    }
}

/// A destination without a record is seeded silently: every entry is recorded,
/// the destination is left however that goes, and nothing the feed shows is
/// fresh for it afterwards.
pub proof fn law_a_new_destination_is_seeded_silently(
    pass: PassView,
    stored: Result<(), Seq<char>>,
)
    requires
        pass.stage is Reading,
    ensures
        ({
            let seeding = pass.advanced(EventView::Record(Ok(None)));
            let left = seeding.advanced(EventView::Stored(stored));
            &&& seeding.action() == ActionView::Put {
                key: pass.key(),
                record: model::ids(pass.entries),
            }
            &&& left.at == pass.at + 1
            &&& left.action() is Get || left.action() is Done
            &&& pass::fresh(pass.entries, model::ids(pass.entries)).len() == 0
        }),
{
    let seen = model::ids(pass.entries);
    let fresh = pass::fresh(pass.entries, seen);
    if fresh.len() > 0 {
        assert(fresh.contains(fresh[0]));
        law_fresh_is_what_the_record_lacks(pass.entries, seen, fresh[0]);
        let k = choose|k: int| 0 <= k < pass.entries.len() && pass.entries[k] == fresh[0];
        assert(seen[k] == fresh[0].id);
    }
}

/// A record that cannot be read leaves its destination alone.
pub proof fn law_an_unreadable_record_leaves_its_destination_alone(
    pass: PassView,
    message: Seq<char>,
)
    requires
        pass.stage is Reading,
    ensures
        ({
            let left = pass.advanced(EventView::Record(Err(message)));
            &&& left.at == pass.at + 1
            &&& left.action() is Get || left.action() is Done
        }),
{
}

/// An unknown delivery is never retried: the destination is left with the entry
/// recorded, so that no later pass that reads this record finds the entry
/// fresh, whatever the feed shows by then.
pub proof fn law_an_unknown_delivery_is_never_retried(
    feed: Feed,
    entries: Seq<EntryView>,
    targets: Seq<TargetView>,
    events: Seq<EventView>,
    i: int,
    later: Seq<EntryView>,
)
    requires
        answered(pass::begun(feed, entries, targets), events),
        0 <= i < events.len(),
        events[i] == EventView::Delivered(Outcome::Unknown),
    ensures
        ({
            let pass = pass::begun(feed, entries, targets);
            let state = state_at(pass, events, i);
            let id = state.current().id;
            &&& state_at(pass, events, i + 1).at == state.at + 1
            &&& exists|k: int|
                {
                    &&& k == i - 1 || k == i - 3
                    &&& #[trigger] recorded_at(pass, events, k, state.key(), id)
                    &&& forall|entry: EntryView|
                        entry.id == id ==> !(#[trigger] pass::fresh(
                            later,
                            action_at(pass, events, k)->record,
                        ).contains(entry))
                }
        }),
{
    let pass = pass::begun(feed, entries, targets);
    lemma_begun(feed, entries, targets);
    lemma_run(pass, events, i);
    lemma_step(pass, events, i);
    let state = state_at(pass, events, i);
    let id = state.current().id;
    assert(state.awaits(events[i]));
    law_entries_are_recorded_before_they_are_sent(feed, entries, targets, events, i);
    let k = if recorded_at(pass, events, i - 1, state.key(), id) {
        i - 1
    } else {
        i - 3
    };
    assert(recorded_at(pass, events, k, state.key(), id));
    let record = action_at(pass, events, k)->record;
    assert(record.contains(record[record.len() - 1]));
    assert forall|entry: EntryView| entry.id == id implies !(#[trigger] pass::fresh(
        later,
        record,
    ).contains(entry)) by {
        law_fresh_is_what_the_record_lacks(later, record, entry);
    }
}

/// What Telegram provably refused is given back: the next thing stored for the
/// destination is its record without the entry, for which the entry is fresh
/// again.
pub proof fn law_a_refused_entry_is_given_back(
    feed: Feed,
    entries: Seq<EntryView>,
    targets: Seq<TargetView>,
    events: Seq<EventView>,
    i: int,
)
    requires
        distinct(entries),
        answered(pass::begun(feed, entries, targets), events),
        0 <= i < events.len(),
        events[i] is Delivered,
        events[i]->Delivered_0 is Rejected || (events[i]->Delivered_0 is RetryAfter && action_at(
            pass::begun(feed, entries, targets),
            events,
            i + 1,
        ) !is Wait),
    ensures
        ({
            let pass = pass::begun(feed, entries, targets);
            let state = state_at(pass, events, i);
            let next = action_at(pass, events, i + 1);
            &&& next is Put
            &&& next->Put_key == state.key()
            &&& next->record == state.claims().drop_last()
            &&& !next->record.contains(state.current().id)
            &&& pass::fresh(entries, next->record).contains(state.current())
        }),
{
    let pass = pass::begun(feed, entries, targets);
    lemma_begun(feed, entries, targets);
    lemma_run(pass, events, i);
    lemma_step(pass, events, i);
    let state = state_at(pass, events, i);
    assert(state.awaits(events[i]));
    lemma_queue_is_from_the_feed(state);
    assert(entries.contains(state.queue()[0]));
    law_fresh_is_what_the_record_lacks(entries, state.claims().drop_last(), state.current());
}

/// A rate limit that fits is always sat out: where the first send of an entry is
/// answered with one, and it does not take the waits of the pass past sixty
/// seconds, the next action is to wait just as long, and the one after that is
/// the same send. This is so whatever the feed, the destination, its record and
/// the queue are.
pub proof fn law_a_rate_limit_that_fits_is_sat_out(
    feed: Feed,
    entries: Seq<EntryView>,
    targets: Seq<TargetView>,
    events: Seq<EventView>,
    i: int,
    seconds: u64,
)
    requires
        answered(pass::begun(feed, entries, targets), events),
        0 <= i < events.len(),
        action_at(pass::begun(feed, entries, targets), events, i) is Send,
        i > 0 ==> action_at(pass::begun(feed, entries, targets), events, i - 1) !is Wait,
        events[i] == EventView::Delivered(Outcome::RetryAfter(seconds)),
        waited(pass::begun(feed, entries, targets), events, i) + seconds <= 60,
    ensures
        action_at(pass::begun(feed, entries, targets), events, i + 1) == (ActionView::Wait {
            seconds,
        }),
        state_at(pass::begun(feed, entries, targets), events, i + 1).advanced(
            EventView::Waited,
        ).action() == action_at(pass::begun(feed, entries, targets), events, i),
        i + 1 < events.len() ==> action_at(pass::begun(feed, entries, targets), events, i + 2)
            == action_at(pass::begun(feed, entries, targets), events, i),
{
    let pass = pass::begun(feed, entries, targets);
    lemma_begun(feed, entries, targets);
    lemma_run(pass, events, i);
    lemma_budget(pass, events, i);
    let s = state_at(pass, events, i);
    assert(s.stage is Sending);
    assert(!s.stage->Sending_again) by {
        assert(events.take(0) =~= seq![]);
        assert(i > 0);
        lemma_run(pass, events, i - 1);
        lemma_step(pass, events, i - 1);
        assert(state_at(pass, events, i - 1).awaits(events[i - 1]));
        lemma_before_a_send(state_at(pass, events, i - 1), events[i - 1]);
    }
    lemma_step(pass, events, i);
    if i + 1 < events.len() {
        assert(state_at(pass, events, i + 1).awaits(events[i + 1]));
        lemma_step(pass, events, i + 1);
    }
}

/// A rate limit on the second send of an entry, or one that would take the waits
/// of the pass past sixty seconds, is not sat out: the claim is given back.
pub proof fn law_no_other_rate_limit_is_sat_out(
    feed: Feed,
    entries: Seq<EntryView>,
    targets: Seq<TargetView>,
    events: Seq<EventView>,
    i: int,
    seconds: u64,
)
    requires
        answered(pass::begun(feed, entries, targets), events),
        0 <= i < events.len(),
        action_at(pass::begun(feed, entries, targets), events, i) is Send,
        events[i] == EventView::Delivered(Outcome::RetryAfter(seconds)),
        waited(pass::begun(feed, entries, targets), events, i) + seconds > 60 || (i > 0
            && action_at(pass::begun(feed, entries, targets), events, i - 1) is Wait),
    ensures
        action_at(pass::begun(feed, entries, targets), events, i + 1) is Put,
{
    let pass = pass::begun(feed, entries, targets);
    lemma_begun(feed, entries, targets);
    lemma_run(pass, events, i);
    lemma_budget(pass, events, i);
    let s = state_at(pass, events, i);
    assert(s.stage is Sending);
    if i > 0 && action_at(pass, events, i - 1) is Wait {
        lemma_run(pass, events, i - 1);
        lemma_step(pass, events, i - 1);
        assert(state_at(pass, events, i - 1).awaits(events[i - 1]));
        lemma_before_a_send(state_at(pass, events, i - 1), events[i - 1]);
    }
    lemma_step(pass, events, i);
}

/// How many of the events from `g` up to `i` say that a send succeeded.
pub open spec fn deliveries(events: Seq<EventView>, g: int, i: int) -> int
    decreases i - g,
{
    if i <= g {
        0
    } else {
        deliveries(events, g, i - 1) + if events[i - 1] == EventView::Delivered(Outcome::Sent) {
            1int
        } else {
            0
        }
    }
}

/// Whether the destination that the pass is at after `i` events was read by the
/// `g`th action, which found `seen`.
pub open spec fn read_at(
    pass: PassView,
    events: Seq<EventView>,
    g: int,
    i: int,
    seen: Seq<Seq<char>>,
) -> bool {
    &&& 0 <= g < i <= events.len()
    &&& state_at(pass, events, g).at == state_at(pass, events, i).at
    &&& action_at(pass, events, g) is Get
    &&& events[g] == EventView::Record(Ok(Some(seen)))
}

/// Whether the pass is working off what was fresh for `seen`, after as many
/// deliveries as there have been since the `g`th event.
pub open spec fn works_off(
    pass: PassView,
    events: Seq<EventView>,
    g: int,
    i: int,
    seen: Seq<Seq<char>>,
) -> bool {
    let s = state_at(pass, events, i);
    let fresh = pass::fresh(pass.entries, seen);
    let n = deliveries(events, g, i);
    let record = record::claimed_all(seen, model::ids(fresh.take(n + 1)));
    &&& read_at(pass, events, g, i, seen)
    &&& 0 <= n < fresh.len()
    &&& s.queue() == fresh.skip(n)
    &&& s.delivering() ==> s.claims() == record
    &&& s.stage is GivingBack ==> s.stage->GivingBack_record == record.drop_last()
}

/// Whatever is queued is being worked off.
proof fn lemma_works_off(pass: PassView, events: Seq<EventView>, i: int)
    requires
        sound(pass),
        pass.queue().len() == 0,
        answered(pass, events),
        0 <= i <= events.len(),
    ensures
        state_at(pass, events, i).queue().len() > 0 ==> exists|g: int, seen: Seq<Seq<char>>|
            #[trigger] works_off(pass, events, g, i, seen),
    decreases i,
{
    if i == 0 {
        assert(events.take(0) =~= seq![]);
    } else {
        lemma_works_off(pass, events, i - 1);
        lemma_run(pass, events, i - 1);
        lemma_step(pass, events, i - 1);
        let s = state_at(pass, events, i - 1);
        let t = state_at(pass, events, i);
        let event = events[i - 1];
        assert(s.awaits(event));
        lemma_sound_step(s, event);
        lemma_patience(s, event);
        if t.queue().len() > 0 {
            assert(t.at == s.at);
            if s.stage is Reading {
                lemma_works_off_first(pass, events, i);
            } else {
                assert(s.queue().len() > 0);
                let (g, seen) = choose|g: int, seen: Seq<Seq<char>>| #[trigger]
                    works_off(pass, events, g, i - 1, seen);
                lemma_works_off_next(pass, events, i, g, seen);
            }
        }
    }
}

/// The first fresh entry is claimed once the record is read.
proof fn lemma_works_off_first(pass: PassView, events: Seq<EventView>, i: int)
    requires
        sound(pass),
        answered(pass, events),
        0 < i <= events.len(),
        state_at(pass, events, i - 1).stage is Reading,
        state_at(pass, events, i).queue().len() > 0,
        state_at(pass, events, i).at == state_at(pass, events, i - 1).at,
    ensures
        exists|g: int, seen: Seq<Seq<char>>| #[trigger] works_off(pass, events, g, i, seen),
{
    lemma_run(pass, events, i - 1);
    lemma_step(pass, events, i - 1);
    let s = state_at(pass, events, i - 1);
    assert(s.awaits(events[i - 1]));
    let seen = events[i - 1]->Record_0->Ok_0->0;
    let fresh = pass::fresh(pass.entries, seen);
    assert(events[i - 1] == EventView::Record(Ok(Some(seen))));
    assert(deliveries(events, i - 1, i) == 0) by {
        reveal_with_fuel(deliveries, 2);
    }
    assert(fresh.skip(0) =~= fresh);
    let ids = model::ids(fresh.take(1));
    assert(ids.drop_last() =~= seq![]);
    assert(ids.last() == fresh[0].id);
    assert(record::claimed_all(seen, ids) == record::claimed(seen, fresh[0].id)) by {
        reveal_with_fuel(record::claimed_all, 2);
    }
    assert(works_off(pass, events, i - 1, i, seen));
}

/// Every further event keeps working the queue off.
proof fn lemma_works_off_next(
    pass: PassView,
    events: Seq<EventView>,
    i: int,
    g: int,
    seen: Seq<Seq<char>>,
)
    requires
        sound(pass),
        answered(pass, events),
        0 < i <= events.len(),
        works_off(pass, events, g, i - 1, seen),
        state_at(pass, events, i - 1).stage !is Reading,
        state_at(pass, events, i - 1).queue().len() > 0,
        state_at(pass, events, i).queue().len() > 0,
        state_at(pass, events, i).at == state_at(pass, events, i - 1).at,
    ensures
        works_off(pass, events, g, i, seen),
{
    lemma_run(pass, events, i - 1);
    lemma_step(pass, events, i - 1);
    let s = state_at(pass, events, i - 1);
    let t = state_at(pass, events, i);
    let event = events[i - 1];
    let fresh = pass::fresh(pass.entries, seen);
    let n = deliveries(events, g, i - 1);
    assert(s.awaits(event));
    if s.stage is Sending && event == EventView::Delivered(Outcome::Sent) {
        let ids = model::ids(fresh.take(n + 2));
        assert(s.queue().drop_first() =~= fresh.skip(n + 1));
        assert(ids.drop_last() =~= model::ids(fresh.take(n + 1)));
        assert(ids.last() == fresh[n + 1].id);
        assert(t.queue()[0] == fresh[n + 1]);
    } else {
        assert(event != EventView::Delivered(Outcome::Sent));
        assert(t.queue() == s.queue());
    }
}

/// Whether the action due after `i` events sends, to the `m`th destination, the
/// entry that comes next of those that were fresh for `seen`, which the `g`th
/// action read there: after as many as have been delivered since.
pub open spec fn sends_the_next(
    pass: PassView,
    events: Seq<EventView>,
    i: int,
    g: int,
    seen: Seq<Seq<char>>,
    m: int,
) -> bool {
    let fresh = pass::fresh(pass.entries, seen);
    let n = deliveries(events, g, i);
    &&& read_at(pass, events, g, i, seen)
    &&& 0 <= m < pass.targets.len()
    &&& action_at(pass, events, g) == ActionView::Get {
        key: model::record_key(pass.feed, pass.targets[m].key),
    }
    &&& 0 <= n < fresh.len()
    &&& action_at(pass, events, i) == ActionView::Send {
        target: pass.targets[m],
        text: message::message(pass.feed, fresh[n]),
    }
    &&& state_at(pass, events, i).claims() == record::claimed_all(
        seen,
        model::ids(fresh.take(n + 1)),
    )
}

/// What is sent is the next fresh entry: of what the feed shows and the record
/// that was read for the destination lacks, the one that comes, from the oldest
/// on, after as many as have been delivered there since. It goes to that
/// destination and none else, and what was stored before it is the record that
/// was read with the entries up to this one claimed.
pub proof fn law_what_is_sent_is_the_next_fresh_entry(
    feed: Feed,
    entries: Seq<EntryView>,
    targets: Seq<TargetView>,
    events: Seq<EventView>,
    i: int,
)
    requires
        answered(pass::begun(feed, entries, targets), events),
        0 <= i <= events.len(),
        action_at(pass::begun(feed, entries, targets), events, i) is Send,
    ensures
        exists|g: int, seen: Seq<Seq<char>>, m: int| #[trigger]
            sends_the_next(pass::begun(feed, entries, targets), events, i, g, seen, m),
{
    let pass = pass::begun(feed, entries, targets);
    lemma_begun(feed, entries, targets);
    lemma_works_off(pass, events, i);
    lemma_run(pass, events, i);
    let s = state_at(pass, events, i);
    assert(s.queue().len() > 0);
    let (g, seen) = choose|g: int, seen: Seq<Seq<char>>| #[trigger]
        works_off(pass, events, g, i, seen);
    lemma_run(pass, events, g);
    let fresh = pass::fresh(entries, seen);
    assert(s.queue()[0] == fresh[deliveries(events, g, i)]);
    assert(sends_the_next(pass, events, i, g, seen, s.at));
}

/// The fresh entries are judged one by one, each by its own id, and come in the
/// reverse order of the feed.
pub proof fn law_fresh_entries_are_judged_one_by_one(
    newer: Seq<EntryView>,
    older: Seq<EntryView>,
    entry: EntryView,
    seen: Seq<Seq<char>>,
)
    ensures
        pass::fresh(newer + older, seen) == pass::fresh(older, seen) + pass::fresh(newer, seen),
        seen.contains(entry.id) ==> pass::fresh(seq![entry], seen).len() == 0,
        !seen.contains(entry.id) ==> pass::fresh(seq![entry], seen) == seq![entry],
{
    let keep = |entry: EntryView| !seen.contains(entry.id);
    Seq::filter_distributes_over_add(newer, older, keep);
    let a = newer.filter(keep);
    let b = older.filter(keep);
    assert((newer + older).filter(keep) == a + b);
    assert((a + b).reverse() =~= b.reverse() + a.reverse());
    assert(seq![entry] =~= Seq::<EntryView>::empty().push(entry));
    Seq::<EntryView>::empty().lemma_filter_push(entry, keep);
    assert(Seq::<EntryView>::empty().filter(keep) =~= Seq::<EntryView>::empty()) by {
        reveal(Seq::filter);
    }
    if !seen.contains(entry.id) {
        assert(pass::fresh(seq![entry], seen) =~= seq![entry]);
    }
}

/// Whether a pass left its destination between `s` and `t`, with these lines
/// logged: it turns to the record of the next destination, or is over after the
/// last.
pub open spec fn leaves(s: PassView, t: PassView, lines: Seq<Seq<char>>) -> bool {
    &&& t.feed == s.feed
    &&& t.entries == s.entries
    &&& t.targets == s.targets
    &&& t.budget == s.budget
    &&& t.at == s.at + 1
    &&& t.logs == s.logs + lines
    &&& s.at + 1 < s.targets.len() ==> t.action() == ActionView::Get {
        key: model::record_key(s.feed, s.targets[s.at + 1].key),
    }
    &&& s.at + 1 >= s.targets.len() ==> t.action() == ActionView::Done
}

/// Whether a pass stays at its destination between `s` and `t`, and logs
/// nothing.
pub open spec fn stays(s: PassView, t: PassView) -> bool {
    &&& t.feed == s.feed
    &&& t.entries == s.entries
    &&& t.targets == s.targets
    &&& t.budget == s.budget
    &&& t.at == s.at
    &&& t.logs == s.logs
}

/// A pass begins by reading the record of the first destination, with sixty
/// seconds to wait and nothing logged; it is over at once where the feed shows
/// nothing or nobody is to be told.
pub proof fn law_a_pass_begins_with_the_first_destination(
    feed: Feed,
    entries: Seq<EntryView>,
    targets: Seq<TargetView>,
)
    ensures
        entries.len() > 0 && targets.len() > 0 ==> pass::begun(feed, entries, targets).action()
            == (ActionView::Get { key: model::record_key(feed, targets[0].key) }),
        entries.len() == 0 || targets.len() == 0 ==> pass::begun(feed, entries, targets).action()
            == ActionView::Done,
        pass::begun(feed, entries, targets).entries == entries,
        pass::begun(feed, entries, targets).targets == targets,
        pass::begun(feed, entries, targets).budget == 60,
        pass::begun(feed, entries, targets).logs.len() == 0,
{
}

/// What follows the reading of a record: a destination whose record cannot be
/// read is left with a line that says why, one without a record is given one
/// that holds the whole feed, one that lacks nothing is left without a word, and
/// otherwise the oldest entry it lacks is claimed in its record.
pub proof fn law_what_follows_a_reading(s: PassView, seen: Seq<Seq<char>>, message: Seq<char>)
    requires
        s.stage is Reading,
        s.wf(),
    ensures
        ({
            let target = s.targets[s.at];
            let key = model::record_key(s.feed, target.key);
            let unread = s.advanced(EventView::Record(Err(message)));
            let without = s.advanced(EventView::Record(Ok(None)));
            let read = s.advanced(EventView::Record(Ok(Some(seen))));
            let fresh = pass::fresh(s.entries, seen);
            &&& s.action() == ActionView::Get { key }
            &&& leaves(
                s,
                unread,
                seq!["target "@ + target.key + ": "@ + "record unreadable: "@ + message],
            )
            &&& stays(s, without)
            &&& without.action() == ActionView::Put { key, record: model::ids(s.entries) }
            &&& fresh.len() == 0 ==> leaves(s, read, seq![])
            &&& fresh.len() > 0 ==> stays(s, read) && read.queue() == fresh && read.action()
                == ActionView::Put { key, record: record::claimed(seen, fresh[0].id) }
        }),
{
    let target = s.targets[s.at];
    let line = "target "@ + target.key + ": "@ + "record unreadable: "@ + message;
    let unread = s.advanced(EventView::Record(Err(message)));
    assert(unread.logs.last() =~= line);
    assert(unread.logs =~= s.logs + seq![line]);
    let read = s.advanced(EventView::Record(Ok(Some(seen))));
    assert(s.logs + Seq::<Seq<char>>::empty() =~= s.logs);
}

/// What follows a seeding: the destination is left, with a line if the record
/// could not be stored.
pub proof fn law_what_follows_a_seeding(s: PassView, message: Seq<char>)
    requires
        s.stage is Seeding,
        s.wf(),
    ensures
        leaves(s, s.advanced(EventView::Stored(Ok(()))), seq![]),
        leaves(
            s,
            s.advanced(EventView::Stored(Err(message))),
            seq!["target "@ + s.targets[s.at].key + ": "@ + "seeding failed: "@ + message],
        ),
{
    let line = "target "@ + s.targets[s.at].key + ": "@ + "seeding failed: "@ + message;
    let failed = s.advanced(EventView::Stored(Err(message)));
    assert(failed.logs.last() =~= line);
    assert(failed.logs =~= s.logs + seq![line]);
    assert(s.logs + Seq::<Seq<char>>::empty() =~= s.logs);
}

/// What follows a claim: the entry is sent to the destination, for the first
/// time; or, if the claim could not be stored, the destination is left with a
/// line that says so.
pub proof fn law_what_follows_a_claim(s: PassView, message: Seq<char>)
    requires
        s.stage is Claiming,
        s.wf(),
    ensures
        ({
            let target = s.targets[s.at];
            let sending = s.advanced(EventView::Stored(Ok(())));
            &&& s.action() == ActionView::Put {
                key: model::record_key(s.feed, target.key),
                record: s.claims(),
            }
            &&& stays(s, sending)
            &&& sending.queue() == s.queue()
            &&& sending.claims() == s.claims()
            &&& sending.stage is Sending && !sending.stage->Sending_again
            &&& sending.action() == ActionView::Send {
                target,
                text: message::message(s.feed, s.current()),
            }
            &&& leaves(
                s,
                s.advanced(EventView::Stored(Err(message))),
                seq!["target "@ + target.key + ": "@ + s.current().id + " not claimed: "@ + message],
            )
        }),
{
    let line = "target "@ + s.targets[s.at].key + ": "@ + s.current().id + " not claimed: "@
        + message;
    let failed = s.advanced(EventView::Stored(Err(message)));
    assert(failed.logs.last() =~= line);
    assert(failed.logs =~= s.logs + seq![line]);
}

/// What follows a send: after success the next entry is claimed, or the
/// destination left where there is none; what was refused is taken out of the
/// record; and what may have landed is left where it is, with a line that says
/// so.
pub proof fn law_what_follows_a_send(s: PassView)
    requires
        s.stage is Sending,
        s.wf(),
    ensures
        ({
            let target = s.targets[s.at];
            let key = model::record_key(s.feed, target.key);
            let sent = s.advanced(EventView::Delivered(Outcome::Sent));
            let rejected = s.advanced(EventView::Delivered(Outcome::Rejected));
            let unknown = s.advanced(EventView::Delivered(Outcome::Unknown));
            &&& s.queue().len() > 1 ==> stays(s, sent) && sent.queue() == s.queue().drop_first()
                && sent.action() == ActionView::Put {
                key,
                record: record::claimed(s.claims(), s.queue()[1].id),
            }
            &&& s.queue().len() == 1 ==> leaves(s, sent, seq![])
            &&& stays(s, rejected)
            &&& rejected.stage is GivingBack
            &&& rejected.queue() == s.queue()
            &&& rejected.action() == ActionView::Put { key, record: s.claims().drop_last() }
            &&& leaves(
                s,
                unknown,
                seq![
                    "target "@ + target.key + ": "@ + s.current().id
                        + " delivery unknown, SKIPPED to avoid a duplicate"@,
                ],
            )
        }),
{
    let line = "target "@ + s.targets[s.at].key + ": "@ + s.current().id
        + " delivery unknown, SKIPPED to avoid a duplicate"@;
    let unknown = s.advanced(EventView::Delivered(Outcome::Unknown));
    assert(unknown.logs.last() =~= line);
    assert(unknown.logs =~= s.logs + seq![line]);
    assert(s.logs + Seq::<Seq<char>>::empty() =~= s.logs);
    if s.queue().len() > 1 {
        assert(s.queue().drop_first()[0] == s.queue()[1]);
    }
}

/// What follows a rate limit: the first on an entry is sat out if what is left
/// of the sixty seconds allows, with a line that says for how long, and the same
/// entry is sent to the same destination again; any other is a refusal.
pub proof fn law_what_follows_a_rate_limit(s: PassView, seconds: u64)
    requires
        s.stage is Sending,
        s.wf(),
    ensures
        ({
            let target = s.targets[s.at];
            let limited = s.advanced(EventView::Delivered(Outcome::RetryAfter(seconds)));
            let again = limited.advanced(EventView::Waited);
            if !s.stage->Sending_again && seconds <= s.budget {
                &&& limited.action() == ActionView::Wait { seconds }
                &&& limited.budget == s.budget - seconds
                &&& limited.at == s.at
                &&& limited.targets == s.targets
                &&& limited.logs == s.logs + seq![
                    "target "@ + target.key + ": "@ + "rate limited, waiting "@ + text::decimal(
                        seconds as nat,
                    ) + "s for "@ + s.current().id,
                ]
                &&& stays(limited, again)
                &&& again.stage is Sending && again.stage->Sending_again
                &&& again.queue() == s.queue()
                &&& again.claims() == s.claims()
                &&& again.action() == s.action()
            } else {
                limited == s.advanced(EventView::Delivered(Outcome::Rejected))
            }
        }),
{
    let limited = s.advanced(EventView::Delivered(Outcome::RetryAfter(seconds)));
    if !s.stage->Sending_again && seconds <= s.budget {
        let line = "target "@ + s.targets[s.at].key + ": "@ + "rate limited, waiting "@
            + text::decimal(seconds as nat) + "s for "@ + s.current().id;
        assert(limited.logs.last() =~= line);
        assert(limited.logs =~= s.logs + seq![line]);
    }
}

/// What follows a give-back: the destination is left, with a line that says
/// whether the entry will be retried.
pub proof fn law_what_follows_a_give_back(s: PassView, message: Seq<char>)
    requires
        s.stage is GivingBack,
        s.wf(),
    ensures
        leaves(
            s,
            s.advanced(EventView::Stored(Ok(()))),
            seq![
                "target "@ + s.targets[s.at].key + ": "@ + s.current().id
                    + " rejected, will retry next tick"@,
            ],
        ),
        leaves(
            s,
            s.advanced(EventView::Stored(Err(message))),
            seq![
                "target "@ + s.targets[s.at].key + ": "@ + s.current().id
                    + " rejected but the claim is stuck: "@ + message,
            ],
        ),
{
    let about = "target "@ + s.targets[s.at].key + ": "@ + s.current().id;
    let given = s.advanced(EventView::Stored(Ok(())));
    let stuck = s.advanced(EventView::Stored(Err(message)));
    assert(given.logs.last() =~= about + " rejected, will retry next tick"@);
    assert(given.logs =~= s.logs + seq![about + " rejected, will retry next tick"@]);
    assert(stuck.logs.last() =~= about + " rejected but the claim is stuck: "@ + message);
    assert(stuck.logs =~= s.logs + seq![
        about + " rejected but the claim is stuck: "@ + message,
    ]);
}

/// An event that does not answer the action that is due changes nothing.
pub proof fn law_other_events_change_nothing(s: PassView, event: EventView)
    requires
        s.action() is Get ==> event !is Record,
        s.action() is Put ==> event !is Stored,
        s.action() is Send ==> event !is Delivered,
        s.action() is Wait ==> event !is Waited,
    ensures
        s.advanced(event) == s,
{
}

} // verus!
