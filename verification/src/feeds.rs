//! The feeds: where each is found, how it is read, and which of its entries are
//! worth announcing.

use vstd::prelude::*;
use vstd::string::*;

use crate::http;
use crate::model::{Entry, EntryView, Feed, BLOG_URL, RELEASES_URL};
use crate::releases;
use crate::rss;
use crate::text;
use crate::xml;

verus! {

/// What of `entries` is worth announcing. Only the releases feed is filtered;
/// every blog post is worth sending.
pub open spec fn worth_sending(feed: Feed, entries: Seq<EntryView>) -> Seq<EntryView> {
    match feed {
        Feed::Releases => entries.filter(
            |entry: EntryView| releases::is_release_tag(entry.id),
        ),
        Feed::Blog => entries,
    }
}

/// What the feed whose content is `content` has to announce, newest first.
pub open spec fn announced(feed: Feed, content: Seq<char>) -> Seq<EntryView> {
    worth_sending(
        feed,
        match feed {
            Feed::Releases => releases::release_entries_of(releases::listed(content)),
            Feed::Blog => rss::entries_in(xml::tokens(content)),
        },
    )
}

/// Where `feed` is found.
pub open spec fn url_of(feed: Feed) -> Seq<char> {
    match feed {
        Feed::Releases => RELEASES_URL@,
        Feed::Blog => BLOG_URL@,
    }
}

/// The setting that lists the destinations of `feed`.
pub open spec fn setting_of(feed: Feed) -> Seq<char> {
    match feed {
        Feed::Releases => "TARGETS"@,
        Feed::Blog => "BLOG_TARGETS"@,
    }
}

/// The line worth logging where `feed` could not be fetched for this reason.
pub open spec fn unreadable_line(feed: Feed, reason: Seq<char>) -> Seq<char> {
    setting_of(feed) + ": feed unreadable: "@ + reason
}

/// Why a feed answered with this HTTP status cannot be read, if it cannot.
pub open spec fn refusal_of(status: u16) -> Option<Seq<char>> {
    if http::is_success(status) {
        None
    } else {
        Some("feed "@ + text::decimal(status as nat))
    }
}

/// What of `entries` is worth announcing, in their order.
pub fn select(feed: Feed, entries: Vec<Entry>) -> (r: Vec<Entry>)
    ensures
        r.deep_view() == worth_sending(feed, entries.deep_view()),
{
    match feed {
        Feed::Releases => {
            let ghost all = entries.deep_view();
            let ghost keep = |entry: EntryView| releases::is_release_tag(entry.id);
            let mut r: Vec<Entry> = Vec::new();
            let mut i: usize = 0;
            assert(r.deep_view() =~= all.take(0).filter(keep)) by {
                reveal(Seq::filter);
            }
            while i < entries.len()
                invariant
                    i <= entries@.len(),
                    all == entries.deep_view(),
                    keep == (|entry: EntryView| releases::is_release_tag(entry.id)),
                    r.deep_view() == all.take(i as int).filter(keep),
                decreases entries@.len() - i,
            {
                let ghost before = r.deep_view();
                proof {
                    assert(all.take(i + 1) =~= all.take(i as int).push(all[i as int]));
                    all.take(i as int).lemma_filter_push(all[i as int], keep);
                }
                if releases::is_release(&entries[i].id) {
                    r.push(entries[i].clone());
                    assert(r.deep_view() =~= before.push(all[i as int]));
                }
                i = i + 1;
            }
            assert(all.take(i as int) =~= all);
            r
        },
        Feed::Blog => entries,
    }
}

/// What the feed whose content is `content` has to announce, newest first.
pub fn announcements(feed: Feed, content: &str) -> (r: Vec<Entry>)
    ensures
        r.deep_view() == announced(feed, content@),
{
    let entries = match feed {
        Feed::Releases => releases::parse_releases(content),
        Feed::Blog => rss::parse_rss(content),
    };
    select(feed, entries)
}

impl Feed {
    /// Where the feed is found.
    pub fn url(self) -> (r: &'static str)
        ensures
            r@ == match self {
                Feed::Releases => RELEASES_URL@,
                Feed::Blog => BLOG_URL@,
            },
            r@ == url_of(self),
    {
        match self {
            Feed::Releases => RELEASES_URL,
            Feed::Blog => BLOG_URL,
        }
    }

    /// The setting that lists the feed's destinations.
    pub fn setting(self) -> (r: &'static str)
        ensures
            r@ == match self {
                Feed::Releases => "TARGETS"@,
                Feed::Blog => "BLOG_TARGETS"@,
            },
            r@ == setting_of(self),
    {
        match self {
            Feed::Releases => "TARGETS",
            Feed::Blog => "BLOG_TARGETS",
        }
    }

    /// The line worth logging where the feed could not be fetched.
    pub fn unreadable(self, reason: &str) -> (r: String)
        ensures
            r@ == match self {
                Feed::Releases => "TARGETS"@,
                Feed::Blog => "BLOG_TARGETS"@,
            } + ": feed unreadable: "@ + reason@,
            r@ == unreadable_line(self, reason@),
    {
        self.setting().to_string().concat(": feed unreadable: ").concat(reason)
    }
}

/// Why a feed answered with this HTTP status cannot be read, if it cannot.
pub fn refusal(status: u16) -> (r: Option<String>)
    ensures
        r.deep_view() == if http::is_success(status) {
            None
        } else {
            Some("feed "@ + text::decimal(status as nat))
        },
        r.deep_view() == refusal_of(status),
{
    if http::succeeded(status) {
        None
    } else {
        Some("feed ".to_string().concat(&text::number(status as u64)))
    }
}

/// Every blog post is worth sending, as it is.
pub proof fn law_every_blog_post_is_announced(entries: Seq<EntryView>, content: Seq<char>)
    ensures
        worth_sending(Feed::Blog, entries) == entries,
        announced(Feed::Blog, content) == rss::entries_in(xml::tokens(content)),
{
}

/// Of the releases, those tagged as one are worth sending, as they are and in
/// their order, and no others: each is judged by its own tag alone.
pub proof fn law_releases_are_judged_one_by_one(
    a: Seq<EntryView>,
    b: Seq<EntryView>,
    entry: EntryView,
    content: Seq<char>,
)
    ensures
        worth_sending(Feed::Releases, a + b) == worth_sending(Feed::Releases, a) + worth_sending(
            Feed::Releases,
            b,
        ),
        releases::is_release_tag(entry.id) ==> worth_sending(Feed::Releases, seq![entry])
            == seq![entry],
        !releases::is_release_tag(entry.id) ==> worth_sending(Feed::Releases, seq![entry]).len()
            == 0,
        announced(Feed::Releases, content) == worth_sending(
            Feed::Releases,
            releases::release_entries_of(releases::listed(content)),
        ),
{
    let keep = |entry: EntryView| releases::is_release_tag(entry.id);
    Seq::filter_distributes_over_add(a, b, keep);
    assert(seq![entry] =~= Seq::<EntryView>::empty().push(entry));
    Seq::<EntryView>::empty().lemma_filter_push(entry, keep);
    assert(Seq::<EntryView>::empty().filter(keep) =~= Seq::<EntryView>::empty()) by {
        reveal(Seq::filter);
    }
    if releases::is_release_tag(entry.id) {
        assert(worth_sending(Feed::Releases, seq![entry]) =~= seq![entry]);
    }
}

/// Each feed has its own address and its own destination list.
pub proof fn law_each_feed_has_its_own_place()
    ensures
        url_of(Feed::Releases)
            == "https://api.github.com/repos/JetBrains/kotlin/releases?per_page=10"@,
        url_of(Feed::Blog) == "https://blog.jetbrains.com/kotlin/feed/"@,
        setting_of(Feed::Releases) == "TARGETS"@,
        setting_of(Feed::Blog) == "BLOG_TARGETS"@,
{
}

/// A feed that was answered with a status from 200 to 299 is read; any other
/// status is named as the reason why not, and logged under the feed's setting.
pub proof fn law_a_refused_feed_is_named_by_its_status(status: u16, reason: Seq<char>)
    ensures
        refusal_of(status) is None <==> 200 <= status <= 299,
        refusal_of(status) is Some ==> refusal_of(status)->0 == "feed "@ + text::decimal(
            status as nat,
        ),
        unreadable_line(Feed::Releases, reason) == "TARGETS"@ + ": feed unreadable: "@ + reason,
        unreadable_line(Feed::Blog, reason) == "BLOG_TARGETS"@ + ": feed unreadable: "@ + reason,
{
}

} // verus!
