//! One pass over the destinations of a feed, as a machine: [`Pass::action`]
//! says what has to be done next, [`Pass::advance`] takes in how it went.
//!
//! Storage, delivery and waiting are the caller's. What the machine decides is
//! what may be sent, in which order, what is recorded before and after, and
//! which rate limits are sat out.

use vstd::prelude::*;
use vstd::string::*;

use crate::feeds;
use crate::message;
use crate::model;
use crate::model::{Entry, EntryView, Feed, Outcome, Target, TargetView};
use crate::record;
use crate::text;

verus! {

/// How many seconds of rate limits one pass sits out, all together. A limit
/// that does not fit what is left of them is left for the next tick.
pub const MAX_RETRY_WAIT: u64 = 60;

/// What has to be done next.
#[derive(Debug, PartialEq, Eq)]
pub enum Action {
    /// Read the record under `key`.
    Get { key: String },
    /// Store `record` under `key`.
    Put { key: String, record: Vec<String> },
    /// Send `text` to `target`.
    Send { target: Target, text: String },
    /// Sit out a rate limit.
    Wait { seconds: u64 },
    /// Nothing: the pass is over.
    Done,
}

/// How the last action went.
#[derive(Debug, PartialEq, Eq)]
pub enum Event {
    /// The record that was read. `Ok(None)` means that the destination has no
    /// record yet, which is different from a read that failed.
    Record(Result<Option<Vec<String>>, String>),
    /// Whether the record was stored.
    Stored(Result<(), String>),
    /// How the send ended.
    Delivered(Outcome),
    /// The rate limit has been sat out.
    Waited,
}

/// An [`Action`] over its texts.
pub enum ActionView {
    Get { key: Seq<char> },
    Put { key: Seq<char>, record: Seq<Seq<char>> },
    Send { target: TargetView, text: Seq<char> },
    Wait { seconds: u64 },
    Done,
}

/// An [`Event`] over its texts.
pub enum EventView {
    Record(Result<Option<Seq<Seq<char>>>, Seq<char>>),
    Stored(Result<(), Seq<char>>),
    Delivered(Outcome),
    Waited,
}

impl View for Action {
    type V = ActionView;

    open spec fn view(&self) -> ActionView {
        match *self {
            Action::Get { key } => ActionView::Get { key: key@ },
            Action::Put { key, record } => ActionView::Put { key: key@, record: record.deep_view() },
            Action::Send { target, text } => ActionView::Send { target: target@, text: text@ },
            Action::Wait { seconds } => ActionView::Wait { seconds },
            Action::Done => ActionView::Done,
        }
    }
}

impl View for Event {
    type V = EventView;

    open spec fn view(&self) -> EventView {
        match *self {
            Event::Record(Ok(record)) => EventView::Record(Ok(record.deep_view())),
            Event::Record(Err(message)) => EventView::Record(Err(message@)),
            Event::Stored(Ok(())) => EventView::Stored(Ok(())),
            Event::Stored(Err(message)) => EventView::Stored(Err(message@)),
            Event::Delivered(outcome) => EventView::Delivered(outcome),
            Event::Waited => EventView::Waited,
        }
    }
}

/// Where a pass stands with the destination it is at. `queue` holds the entries
/// still to be delivered there, the current one first; `record` is the
/// destination's record as the last `Put` had it, or has it.
pub enum StageView {
    /// Its record is being read.
    Reading,
    /// It had none, and one with every entry of the feed is being stored.
    Seeding,
    /// The current entry is being recorded.
    Claiming { record: Seq<Seq<char>>, queue: Seq<EntryView> },
    /// The current entry is being sent, for the second time if `again`.
    Sending { record: Seq<Seq<char>>, queue: Seq<EntryView>, again: bool },
    /// A rate limit on the current entry is being sat out.
    Waiting { record: Seq<Seq<char>>, queue: Seq<EntryView>, seconds: u64 },
    /// The current entry was refused, and is being taken out of the record.
    GivingBack { record: Seq<Seq<char>>, queue: Seq<EntryView> },
    /// There is no destination left.
    Finished,
}

/// A pass: the feed and what it shows, the destinations, the one the pass is
/// at, how many seconds it may still wait, and the lines logged so far.
pub struct PassView {
    pub feed: Feed,
    pub entries: Seq<EntryView>,
    pub targets: Seq<TargetView>,
    pub at: int,
    pub stage: StageView,
    pub budget: u64,
    pub logs: Seq<Seq<char>>,
}

/// What `entries` holds that `seen` does not, oldest first. A feed shows the
/// newest entry first.
pub open spec fn fresh(entries: Seq<EntryView>, seen: Seq<Seq<char>>) -> Seq<EntryView> {
    entries.filter(|entry: EntryView| !seen.contains(entry.id)).reverse()
}

/// The start of every log line about the destination `key`.
pub open spec fn about(key: Seq<char>) -> Seq<char> {
    "target "@ + key + ": "@
}

/// A pass of `feed`, which shows `entries`, over `targets`. There is nothing to
/// do if the feed shows nothing.
pub open spec fn begun(
    feed: Feed,
    entries: Seq<EntryView>,
    targets: Seq<TargetView>,
) -> PassView {
    PassView {
        feed,
        entries,
        targets,
        at: 0,
        stage: if entries.len() > 0 && targets.len() > 0 {
            StageView::Reading
        } else {
            StageView::Finished
        },
        budget: MAX_RETRY_WAIT,
        logs: seq![],
    }
}

impl PassView {
    /// The pass stands at one of its destinations, and while it delivers there
    /// is an entry to deliver and a claim in the record.
    pub open spec fn wf(self) -> bool {
        match self.stage {
            StageView::Reading | StageView::Seeding => 0 <= self.at < self.targets.len(),
            StageView::Claiming { record, queue } => {
                &&& 0 <= self.at < self.targets.len()
                &&& record.len() > 0
                &&& queue.len() > 0
            },
            StageView::Sending { record, queue, .. } => {
                &&& 0 <= self.at < self.targets.len()
                &&& record.len() > 0
                &&& queue.len() > 0
            },
            StageView::Waiting { record, queue, .. } => {
                &&& 0 <= self.at < self.targets.len()
                &&& record.len() > 0
                &&& queue.len() > 0
            },
            StageView::GivingBack { record, queue } => {
                &&& 0 <= self.at < self.targets.len()
                &&& queue.len() > 0
            },
            StageView::Finished => true,
        }
    }

    /// The destination the pass is at.
    pub open spec fn target(self) -> TargetView {
        self.targets[self.at]
    }

    /// The key of its record.
    pub open spec fn key(self) -> Seq<char> {
        model::record_key(self.feed, self.target().key)
    }

    /// What has to be done next.
    pub open spec fn action(self) -> ActionView {
        match self.stage {
            StageView::Reading => ActionView::Get { key: self.key() },
            StageView::Seeding => ActionView::Put { key: self.key(), record: model::ids(self.entries) },
            StageView::Claiming { record, .. } => ActionView::Put { key: self.key(), record },
            StageView::Sending { queue, .. } => ActionView::Send {
                target: self.target(),
                text: message::message(self.feed, queue[0]),
            },
            StageView::Waiting { seconds, .. } => ActionView::Wait { seconds },
            StageView::GivingBack { record, .. } => ActionView::Put { key: self.key(), record },
            StageView::Finished => ActionView::Done,
        }
    }

    /// Whether `event` can be how the action that is due went.
    pub open spec fn awaits(self, event: EventView) -> bool {
        match self.action() {
            ActionView::Get { .. } => event is Record,
            ActionView::Put { .. } => event is Stored,
            ActionView::Send { .. } => event is Delivered,
            ActionView::Wait { .. } => event is Waited,
            ActionView::Done => false,
        }
    }

    /// With one more line about the destination the pass is at.
    pub open spec fn logged(self, line: Seq<char>) -> PassView {
        PassView { logs: self.logs.push(about(self.target().key) + line), ..self }
    }

    /// At the next destination.
    pub open spec fn moved_on(self) -> PassView {
        PassView {
            at: self.at + 1,
            stage: if self.at + 1 < self.targets.len() {
                StageView::Reading
            } else {
                StageView::Finished
            },
            ..self
        }
    }

    /// Turned to the first entry of `queue`, or to the next destination if
    /// there is none. The entry is claimed first: a crash or a lost
    /// acknowledgement after that costs one missed entry, never a duplicate.
    pub open spec fn turned_to(self, record: Seq<Seq<char>>, queue: Seq<EntryView>) -> PassView {
        if queue.len() == 0 {
            self.moved_on()
        } else {
            PassView {
                stage: StageView::Claiming { record: record::claimed(record, queue[0].id), queue },
                ..self
            }
        }
    }

    /// After the record was read, or was not.
    pub open spec fn after_record(self, read: Result<Option<Seq<Seq<char>>>, Seq<char>>) -> PassView {
        match read {
            Err(message) => self.logged("record unreadable: "@ + message).moved_on(),
            // A destination the bot has never sent to is seeded silently.
            Ok(None) => PassView { stage: StageView::Seeding, ..self },
            Ok(Some(seen)) => self.turned_to(seen, fresh(self.entries, seen)),
        }
    }

    /// After the first entry of `queue` was sent and this came of it.
    pub open spec fn after_send(
        self,
        record: Seq<Seq<char>>,
        queue: Seq<EntryView>,
        again: bool,
        outcome: Outcome,
    ) -> PassView {
        let refused = PassView {
            stage: StageView::GivingBack { record: record.drop_last(), queue },
            ..self
        };
        match outcome {
            Outcome::Sent => self.turned_to(record, queue.drop_first()),
            Outcome::Rejected => refused,
            // A rate limit proves that nothing was posted, so waiting and
            // sending again cannot duplicate.
            Outcome::RetryAfter(seconds) => if !again && seconds <= self.budget {
                PassView {
                    stage: StageView::Waiting { record, queue, seconds },
                    budget: (self.budget - seconds) as u64,
                    ..self
                }.logged(
                    "rate limited, waiting "@ + text::decimal(seconds as nat) + "s for "@ + queue[0].id,
                )
            } else {
                refused
            },
            Outcome::Unknown => self.logged(
                queue[0].id + " delivery unknown, SKIPPED to avoid a duplicate"@,
            ).moved_on(),
        }
    }

    /// The pass after `event`. An event that does not answer the action that is
    /// due changes nothing.
    pub open spec fn advanced(self, event: EventView) -> PassView {
        match (self.stage, event) {
            (StageView::Reading, EventView::Record(read)) => self.after_record(read),
            (StageView::Seeding, EventView::Stored(Ok(()))) => self.moved_on(),
            (StageView::Seeding, EventView::Stored(Err(message))) => self.logged(
                "seeding failed: "@ + message,
            ).moved_on(),
            (StageView::Claiming { record, queue }, EventView::Stored(Ok(()))) => PassView {
                stage: StageView::Sending { record, queue, again: false },
                ..self
            },
            // Nothing was claimed, so nothing may be sent.
            (StageView::Claiming { queue, .. }, EventView::Stored(Err(message))) => self.logged(
                queue[0].id + " not claimed: "@ + message,
            ).moved_on(),
            (StageView::Sending { record, queue, again }, EventView::Delivered(outcome)) =>
                self.after_send(record, queue, again, outcome),
            (StageView::Waiting { record, queue, .. }, EventView::Waited) => PassView {
                stage: StageView::Sending { record, queue, again: true },
                ..self
            },
            (StageView::GivingBack { queue, .. }, EventView::Stored(Ok(()))) => self.logged(
                queue[0].id + " rejected, will retry next tick"@,
            ).moved_on(),
            (StageView::GivingBack { queue, .. }, EventView::Stored(Err(message))) => self.logged(
                queue[0].id + " rejected but the claim is stuck: "@ + message,
            ).moved_on(),
            _ => self,
        }
    }
}

/// Where a pass stands. `pending` holds the entries still to be delivered in
/// the order of the feed, so the current one is last.
enum Stage {
    Reading,
    Seeding,
    Claiming { record: Vec<String>, pending: Vec<Entry> },
    Sending { record: Vec<String>, pending: Vec<Entry>, again: bool },
    Waiting { record: Vec<String>, pending: Vec<Entry>, seconds: u64 },
    GivingBack { record: Vec<String>, pending: Vec<Entry> },
    Finished,
}

impl Stage {
    spec fn view(&self) -> StageView {
        match *self {
            Stage::Reading => StageView::Reading,
            Stage::Seeding => StageView::Seeding,
            Stage::Claiming { record, pending } => StageView::Claiming {
                record: record.deep_view(),
                queue: pending.deep_view().reverse(),
            },
            Stage::Sending { record, pending, again } => StageView::Sending {
                record: record.deep_view(),
                queue: pending.deep_view().reverse(),
                again,
            },
            Stage::Waiting { record, pending, seconds } => StageView::Waiting {
                record: record.deep_view(),
                queue: pending.deep_view().reverse(),
                seconds,
            },
            Stage::GivingBack { record, pending } => StageView::GivingBack {
                record: record.deep_view(),
                queue: pending.deep_view().reverse(),
            },
            Stage::Finished => StageView::Finished,
        }
    }
}

/// A pass of one feed over its destinations.
pub struct Pass {
    feed: Feed,
    entries: Vec<Entry>,
    targets: Vec<Target>,
    at: usize,
    stage: Stage,
    budget: u64,
    logs: Vec<String>,
}

impl View for Pass {
    type V = PassView;

    closed spec fn view(&self) -> PassView {
        PassView {
            feed: self.feed,
            entries: self.entries.deep_view(),
            targets: self.targets.deep_view(),
            at: self.at as int,
            stage: self.stage.view(),
            budget: self.budget,
            logs: self.logs.deep_view(),
        }
    }
}

impl Pass {
    #[verifier::type_invariant]
    spec fn stands_well(self) -> bool {
        self@.wf()
    }
}

/// What `entries` holds that `seen` does not, in the order of the feed.
fn unseen(entries: &Vec<Entry>, seen: &Vec<String>) -> (r: Vec<Entry>)
    ensures
        r.deep_view().reverse() == fresh(entries.deep_view(), seen.deep_view()),
{
    let mut r: Vec<Entry> = Vec::new();
    let mut i: usize = 0;
    let ghost all = entries.deep_view();
    let ghost keep = |entry: EntryView| !seen.deep_view().contains(entry.id);
    assert(r.deep_view() =~= all.take(0).filter(keep)) by {
        reveal(Seq::filter);
    }
    while i < entries.len()
        invariant
            i <= entries@.len(),
            all == entries.deep_view(),
            keep == (|entry: EntryView| !seen.deep_view().contains(entry.id)),
            r.deep_view() == all.take(i as int).filter(keep),
        decreases entries@.len() - i,
    {
        let ghost before = r.deep_view();
        proof {
            assert(all.take(i + 1) =~= all.take(i as int).push(all[i as int]));
            all.take(i as int).lemma_filter_push(all[i as int], keep);
        }
        if !record::recorded(seen, &entries[i].id) {
            r.push(entries[i].clone());
            assert(r.deep_view() =~= before.push(all[i as int]));
        }
        i = i + 1;
    }
    assert(all.take(i as int) =~= all);
    r
}

impl Pass {
    /// Starts a pass of `feed`, which shows `entries`, over `targets`.
    pub fn begin(feed: Feed, entries: Vec<Entry>, targets: Vec<Target>) -> (r: Pass)
        ensures
            r@ == begun(feed, entries.deep_view(), targets.deep_view()),
            r@.wf(),
    {
        let stage = if entries.len() > 0 && targets.len() > 0 {
            Stage::Reading
        } else {
            Stage::Finished
        };
        let r = Pass {
            feed,
            entries,
            targets,
            at: 0,
            stage,
            budget: MAX_RETRY_WAIT,
            logs: Vec::new(),
        };
        assert(r@.logs =~= seq![]);
        r
    }

    /// Starts a pass of the feed whose content is `content` over `targets`.
    pub fn start(feed: Feed, content: &str, targets: Vec<Target>) -> (r: Pass)
        ensures
            r@ == begun(feed, feeds::announced(feed, content@), targets.deep_view()),
            r@.wf(),
    {
        Pass::begin(feed, feeds::announcements(feed, content), targets)
    }

    /// What has to be done next.
    pub fn action(&self) -> (r: Action)
        ensures
            self@.wf(),
            r@ == self@.action(),
    {
        proof {
            use_type_invariant(&*self);
        }
        match &self.stage {
            Stage::Reading => Action::Get { key: self.key() },
            Stage::Seeding => Action::Put { key: self.key(), record: self.all_ids() },
            Stage::Claiming { record, .. } => Action::Put { key: self.key(), record: copied(record) },
            Stage::Sending { pending, .. } => Action::Send {
                target: self.targets[self.at].clone(),
                text: message::format_message(self.feed, &pending[pending.len() - 1]),
            },
            Stage::Waiting { seconds, .. } => Action::Wait { seconds: *seconds },
            Stage::GivingBack { record, .. } => Action::Put { key: self.key(), record: copied(record) },
            Stage::Finished => Action::Done,
        }
    }

    /// Takes in how the action that was due went. An event that does not answer
    /// it changes nothing.
    pub fn advance(self, event: Event) -> (r: Pass)
        ensures
            r@ == self@.advanced(event@),
            r@.wf(),
    {
        proof {
            use_type_invariant(&self);
        }
        let Pass { feed, entries, targets, at, stage, budget, logs } = self;
        let pass = Pass { feed, entries, targets, at, stage: Stage::Finished, budget, logs };
        match (stage, event) {
            (Stage::Reading, Event::Record(read)) => pass.after_record(read),
            (Stage::Seeding, Event::Stored(Ok(()))) => pass.moved_on(),
            (Stage::Seeding, Event::Stored(Err(message))) => {
                let line = "seeding failed: ".to_string().concat(&message);
                pass.logged(&line).moved_on()
            },
            (Stage::Claiming { record, pending }, Event::Stored(Ok(()))) => Pass {
                stage: Stage::Sending { record, pending, again: false },
                ..pass
            },
            (Stage::Claiming { record, pending }, Event::Stored(Err(message))) => {
                let line = current(&pending).concat(" not claimed: ").concat(&message);
                pass.logged(&line).moved_on()
            },
            (Stage::Sending { record, pending, again }, Event::Delivered(outcome)) =>
                pass.after_send(record, pending, again, outcome),
            (Stage::Waiting { record, pending, seconds }, Event::Waited) => Pass {
                stage: Stage::Sending { record, pending, again: true },
                ..pass
            },
            (Stage::GivingBack { record, pending }, Event::Stored(Ok(()))) => {
                let line = current(&pending).concat(" rejected, will retry next tick");
                pass.logged(&line).moved_on()
            },
            (Stage::GivingBack { record, pending }, Event::Stored(Err(message))) => {
                let line = current(&pending).concat(" rejected but the claim is stuck: ").concat(
                    &message,
                );
                pass.logged(&line).moved_on()
            },
            (stage, _) => Pass { stage, ..pass },
        }
    }

    /// The lines worth logging.
    pub fn into_logs(self) -> (r: Vec<String>)
        ensures
            r.deep_view() == self@.logs,
    {
        self.logs
    }

    /// The key of the record of the destination the pass is at.
    fn key(&self) -> (r: String)
        requires
            0 <= self@.at < self@.targets.len(),
        ensures
            r@ == self@.key(),
    {
        self.feed.record_key(&self.targets[self.at].key)
    }

    /// The ids of everything the feed shows.
    fn all_ids(&self) -> (r: Vec<String>)
        ensures
            r.deep_view() == model::ids(self@.entries),
    {
        let mut r: Vec<String> = Vec::new();
        let mut i: usize = 0;
        while i < self.entries.len()
            invariant
                i <= self.entries@.len(),
                r.deep_view() =~= model::ids(self@.entries.take(i as int)),
            decreases self.entries@.len() - i,
        {
            let ghost before = r.deep_view();
            r.push(self.entries[i].id.clone());
            assert(r.deep_view() =~= before.push(self@.entries[i as int].id));
            i = i + 1;
        }
        assert(self@.entries.take(i as int) =~= self@.entries);
        r
    }

    /// Logs a line about the destination the pass is at.
    fn logged(self, line: &str) -> (r: Pass)
        requires
            0 <= self@.at < self@.targets.len(),
        ensures
            r@ == self@.logged(line@),
    {
        proof {
            use_type_invariant(&self);
        }
        let ghost before = self@;
        let whole = "target ".to_string().concat(&self.targets[self.at].key).concat(": ").concat(line);
        let mut logs = self.logs;
        logs.push(whole);
        let r = Pass { logs, ..self };
        assert(r@.logs =~= before.logs.push(whole@));
        r
    }

    /// Goes on to the next destination.
    fn moved_on(self) -> (r: Pass)
        requires
            0 <= self@.at < self@.targets.len(),
        ensures
            r@ == self@.moved_on(),
            r@.wf(),
    {
        let count: usize = self.targets.len();
        let at: usize = self.at + 1;
        let stage = if at < count {
            Stage::Reading
        } else {
            Stage::Finished
        };
        Pass { at, stage, ..self }
    }

    /// Turns to the last entry of `pending`, or to the next destination.
    fn turned_to(self, record: Vec<String>, pending: Vec<Entry>) -> (r: Pass)
        requires
            0 <= self@.at < self@.targets.len(),
        ensures
            r@ == self@.turned_to(record.deep_view(), pending.deep_view().reverse()),
            r@.wf(),
    {
        if pending.len() == 0 {
            self.moved_on()
        } else {
            let mut record = record;
            record::claim(&mut record, &current(&pending));
            Pass { stage: Stage::Claiming { record, pending }, ..self }
        }
    }

    fn after_record(self, read: Result<Option<Vec<String>>, String>) -> (r: Pass)
        requires
            0 <= self@.at < self@.targets.len(),
        ensures
            r@ == self@.after_record(record::record_view(read)),
            r@.wf(),
    {
        match read {
            Err(message) => {
                let line = "record unreadable: ".to_string().concat(&message);
                self.logged(&line).moved_on()
            },
            Ok(None) => Pass { stage: Stage::Seeding, ..self },
            Ok(Some(seen)) => {
                let pending = unseen(&self.entries, &seen);
                self.turned_to(seen, pending)
            },
        }
    }

    fn after_send(
        self,
        record: Vec<String>,
        pending: Vec<Entry>,
        again: bool,
        outcome: Outcome,
    ) -> (r: Pass)
        requires
            0 <= self@.at < self@.targets.len(),
            record.deep_view().len() > 0,
            pending.deep_view().len() > 0,
        ensures
            r@ == self@.after_send(
                record.deep_view(),
                pending.deep_view().reverse(),
                again,
                outcome,
            ),
            r@.wf(),
    {
        let ghost queue = pending.deep_view().reverse();
        match outcome {
            Outcome::Sent => {
                let mut pending = pending;
                pending.pop();
                assert(pending.deep_view().reverse() =~= queue.drop_first());
                self.turned_to(record, pending)
            },
            Outcome::Rejected => self.refused(record, pending),
            Outcome::RetryAfter(seconds) => {
                if !again && seconds <= self.budget {
                    let line = "rate limited, waiting ".to_string().concat(
                        &text::number(seconds),
                    ).concat("s for ").concat(&current(&pending));
                    Pass {
                        stage: Stage::Waiting { record, pending, seconds },
                        budget: self.budget - seconds,
                        ..self
                    }.logged(&line)
                } else {
                    self.refused(record, pending)
                }
            },
            Outcome::Unknown => {
                let line = current(&pending).concat(
                    " delivery unknown, SKIPPED to avoid a duplicate",
                );
                self.logged(&line).moved_on()
            },
        }
    }

    /// Gives the last claim back.
    fn refused(self, record: Vec<String>, pending: Vec<Entry>) -> (r: Pass)
        requires
            0 <= self@.at < self@.targets.len(),
            record.deep_view().len() > 0,
            pending.deep_view().len() > 0,
        ensures
            r@ == (PassView {
                stage: StageView::GivingBack {
                    record: record.deep_view().drop_last(),
                    queue: pending.deep_view().reverse(),
                },
                ..self@
            }),
    {
        let ghost claims = record.deep_view();
        let mut record = record;
        record.pop();
        assert(record.deep_view() =~= claims.drop_last());
        Pass { stage: Stage::GivingBack { record, pending }, ..self }
    }
}

/// The id of the entry that is being delivered.
fn current(pending: &Vec<Entry>) -> (r: String)
    requires
        pending.deep_view().len() > 0,
    ensures
        r@ == pending.deep_view().reverse()[0].id,
{
    pending[pending.len() - 1].id.clone()
}

/// A copy of `record`.
fn copied(record: &Vec<String>) -> (r: Vec<String>)
    ensures
        r.deep_view() == record.deep_view(),
{
    let r = record.clone();
    assert(r.deep_view() =~= record.deep_view());
    r
}

/// An action is seen as what it asks for, in full.
pub proof fn law_an_action_is_what_it_asks_for(action: Action)
    ensures
        action is Get ==> action@ == (ActionView::Get { key: action->Get_key@ }),
        action is Put ==> {
            let record = action->record@;
            &&& action@ is Put
            &&& action@->Put_key == action->Put_key@
            &&& action@->record.len() == record.len()
            &&& forall|i: int|
                0 <= i < record.len() ==> #[trigger] action@->record[i] == record[i]@
        },
        action is Send ==> action@ == (ActionView::Send {
            target: action->target@,
            text: action->text@,
        }),
        action is Wait ==> action@ == (ActionView::Wait { seconds: action->seconds }),
        action is Done ==> action@ is Done,
{
}

/// An event is seen as what it says, in full.
pub proof fn law_an_event_is_what_it_says(event: Event)
    ensures
        event is Record ==> event@ == EventView::Record(record::record_view(event->Record_0)),
        event is Stored && event->Stored_0 is Ok ==> event@ is Stored && event@->Stored_0 is Ok,
        event is Stored && event->Stored_0 is Err ==> event@ is Stored && event@->Stored_0 is Err
            && event@->Stored_0->Err_0 == event->Stored_0->Err_0@,
        event is Delivered ==> event@ == EventView::Delivered(event->Delivered_0),
        event is Waited ==> event@ is Waited,
{
}

} // verus!
