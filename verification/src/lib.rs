//! Announces new Kotlin releases and blog posts to Telegram destinations.
//!
//! Two feeds, each with its own destination list and its own delivery records:
//! GitHub's release list and the Kotlin blog's RSS feed.
//!
//! The crate decides; it performs no I/O. [`Pass`] is one pass of a feed over
//! its destinations: it says what to read, store, send or wait for next, and
//! takes in how that went. [`laws`] states what holds of every pass, and
//! [`ticks`] what holds of one pass after another.

pub mod feeds;
pub mod http;
pub mod json;
pub mod laws;
pub mod message;
pub mod model;
pub mod page;
pub mod pass;
pub mod record;
pub mod releases;
pub mod rss;
pub mod targets;
pub mod telegram;
pub mod text;
pub mod ticks;
pub mod xml;

pub use feeds::{announcements, refusal, select};
pub use http::succeeded;
pub use message::{escape_html, format_message};
pub use model::{Entry, Feed, Outcome, Target, BLOG_URL, RELEASES_URL};
pub use page::{describe, stamp};
pub use pass::{Action, Event, Pass, MAX_RETRY_WAIT};
pub use record::{decode_record, encode_record, read_record, SEEN_CAP};
pub use releases::{is_release, parse_releases};
pub use rss::parse_rss;
pub use targets::{parse_targets, subscribers};
pub use telegram::{classify, reply_outcome, request_body, send_url, settle};
