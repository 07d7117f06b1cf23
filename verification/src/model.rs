//! What the bot talks about: feeds and their entries, destinations, and how a
//! send can end.

use vstd::prelude::*;
use vstd::string::*;

verus! {

/// GitHub's release list, newest published first. It holds actual releases
/// only, where the Atom feed of the same repository mixes in bare tags.
pub const RELEASES_URL: &'static str =
    "https://api.github.com/repos/JetBrains/kotlin/releases?per_page=10";

/// The Kotlin blog's RSS feed.
pub const BLOG_URL: &'static str = "https://blog.jetbrains.com/kotlin/feed/";

/// One thing worth announcing. `id` is whatever the feed uses to identify it
/// for good: a release tag, or a blog post's `<guid>`.
#[derive(Debug, PartialEq, Eq)]
pub struct Entry {
    pub id: String,
    pub title: String,
    pub link: String,
}

/// An [`Entry`] as its three texts.
pub struct EntryView {
    pub id: Seq<char>,
    pub title: Seq<char>,
    pub link: Seq<char>,
}

impl View for Entry {
    type V = EntryView;

    open spec fn view(&self) -> EntryView {
        EntryView { id: self.id@, title: self.title@, link: self.link@ }
    }
}

impl DeepView for Entry {
    type V = EntryView;

    open spec fn deep_view(&self) -> EntryView {
        self.view()
    }
}

impl Clone for Entry {
    fn clone(&self) -> (r: Self)
        ensures
            r@ == self@,
    {
        Entry { id: self.id.clone(), title: self.title.clone(), link: self.link.clone() }
    }
}

/// The ids of a list of entries, in order.
pub open spec fn ids(entries: Seq<EntryView>) -> Seq<Seq<char>> {
    entries.map_values(|entry: EntryView| entry.id)
}

/// The two feeds.
#[derive(Debug, Clone, Copy, PartialEq, Eq, Structural)]
pub enum Feed {
    Releases,
    Blog,
}

/// What the record keys of `feed` start with.
pub open spec fn key_prefix(feed: Feed) -> Seq<char> {
    match feed {
        Feed::Releases => "seen:release"@,
        Feed::Blog => "seen:blog"@,
    }
}

/// The key under which `feed` keeps its record for the destination `target`.
pub open spec fn record_key(feed: Feed, target: Seq<char>) -> Seq<char> {
    key_prefix(feed) + ":"@ + target
}

impl Feed {
    /// Each feed keeps its own records, so the two never collide and a
    /// destination can subscribe to one without the other.
    pub fn key_prefix(self) -> (r: &'static str)
        ensures
            r@ == key_prefix(self),
    {
        match self {
            Feed::Releases => "seen:release",
            Feed::Blog => "seen:blog",
        }
    }

    /// The key of this feed's record for the destination `target`.
    pub fn record_key(self, target: &str) -> (r: String)
        ensures
            r@ == record_key(self, target@),
    {
        self.key_prefix().to_string().concat(":").concat(target)
    }
}

/// A destination: a chat, or one topic of a chat. `key` is how it was written
/// in the destination list.
#[derive(Debug, PartialEq, Eq)]
pub struct Target {
    pub key: String,
    pub chat_id: String,
    pub thread_id: Option<String>,
}

/// A [`Target`] as its texts.
pub struct TargetView {
    pub key: Seq<char>,
    pub chat_id: Seq<char>,
    pub thread_id: Option<Seq<char>>,
}

impl View for Target {
    type V = TargetView;

    open spec fn view(&self) -> TargetView {
        TargetView {
            key: self.key@,
            chat_id: self.chat_id@,
            thread_id: self.thread_id.deep_view(),
        }
    }
}

impl DeepView for Target {
    type V = TargetView;

    open spec fn deep_view(&self) -> TargetView {
        self.view()
    }
}

impl Clone for Target {
    fn clone(&self) -> (r: Self)
        ensures
            r@ == self@,
    {
        let thread_id = match &self.thread_id {
            Some(thread_id) => Some(thread_id.clone()),
            None => None,
        };
        Target { key: self.key.clone(), chat_id: self.chat_id.clone(), thread_id }
    }
}

/// How a send ended.
#[derive(Debug, Clone, Copy, PartialEq, Eq, Structural)]
pub enum Outcome {
    Sent,
    /// Telegram's own error envelope came back, which proves nothing was posted.
    Rejected,
    /// The send may have landed with only the acknowledgement lost.
    Unknown,
    /// Refused with a rate limit and Telegram's own retry hint, in seconds.
    /// Still proof of non-delivery, so sending again cannot duplicate.
    RetryAfter(u64),
}

/// The two feeds keep their records apart: no destination of one shares a key
/// with any destination of the other.
pub proof fn law_feeds_never_share_a_key(a: Seq<char>, b: Seq<char>)
    ensures
        record_key(Feed::Releases, a) != record_key(Feed::Blog, b),
{
    reveal_strlit("seen:release");
    reveal_strlit("seen:blog");
    let release = record_key(Feed::Releases, a);
    let blog = record_key(Feed::Blog, b);
    assert(release[5] == 'r');
    assert(blog[5] == 'b');
}

/// Within one feed, different destinations have different keys.
pub proof fn law_destinations_never_share_a_key(feed: Feed, a: Seq<char>, b: Seq<char>)
    requires
        record_key(feed, a) == record_key(feed, b),
    ensures
        a == b,
{
    let prefix = key_prefix(feed) + ":"@;
    assert(record_key(feed, a).skip(prefix.len() as int) =~= a);
    assert(record_key(feed, b).skip(prefix.len() as int) =~= b);
}

/// A record's key is the feed's own prefix, a colon, and the destination.
pub proof fn law_a_key_is_its_prefix_and_its_destination(target: Seq<char>)
    ensures
        record_key(Feed::Releases, target) == "seen:release:"@ + target,
        record_key(Feed::Blog, target) == "seen:blog:"@ + target,
        key_prefix(Feed::Releases) == "seen:release"@,
        key_prefix(Feed::Blog) == "seen:blog"@,
{
    reveal_strlit("seen:release");
    reveal_strlit("seen:blog");
    reveal_strlit(":");
    reveal_strlit("seen:release:");
    reveal_strlit("seen:blog:");
    assert(record_key(Feed::Releases, target) =~= "seen:release:"@ + target);
    assert(record_key(Feed::Blog, target) =~= "seen:blog:"@ + target);
}

/// The ids of a list of entries are those of the entries, one for one.
pub proof fn law_ids_are_those_of_the_entries(entries: Seq<EntryView>)
    ensures
        ids(entries).len() == entries.len(),
        forall|i: int| 0 <= i < entries.len() ==> #[trigger] ids(entries)[i] == entries[i].id,
{
}

/// An entry and a destination are seen as the texts they hold.
pub proof fn law_entries_and_destinations_are_their_texts(entry: Entry, target: Target)
    ensures
        entry@ == (EntryView { id: entry.id@, title: entry.title@, link: entry.link@ }),
        entry.deep_view() == entry@,
        target@.key == target.key@,
        target@.chat_id == target.chat_id@,
        target.thread_id is None ==> target@.thread_id is None,
        target.thread_id is Some ==> target@.thread_id == Some(target.thread_id->0@),
        target.deep_view() == target@,
{
}

} // verus!
