//! The page the bot answers requests with. The address is public, so the page
//! is a fixed description: the record keys are named after the destinations,
//! and it must not leak them.

use vstd::prelude::*;
use vstd::string::*;

use crate::model::BLOG_URL;
use crate::text;

verus! {

/// What a build is stamped with, given the commit that is checked out and the
/// changes made to it since, each as `git` printed it, or nothing where `git`
/// could not be asked. A build with changes matches no commit, and says so.
pub open spec fn stamp_of(commit: Option<Seq<char>>, changes: Option<Seq<char>>) -> Seq<char> {
    let commit = match commit {
        Some(commit) => text::trimmed(commit),
        None => "unknown"@,
    };
    if changes is Some && text::trimmed(changes->0).len() > 0 {
        commit + "-dirty"@
    } else {
        commit
    }
}

/// The page of the bot as built from `commit`.
pub open spec fn page(commit: Seq<char>) -> Seq<char> {
    "kotlin-releases-bot\n\nAnnounces Kotlin releases and blog posts to Telegram.\n\nreleases  github api, newest published first\n          keeps vX.Y.Z and vX.Y.Z-RCn, drops betas and build-*-dev-*\nblog      "@
        + BLOG_URL@
        + "\n          every post\n\nEach feed has its own destination list and its own records.\nschedule  every 15 minutes\ncommit    "@
        + commit
        + "\ncode      https://github.com/CommanderTvis/kotlin-releases-bot/commit/"@
        + commit
        + "\n\nThere is no API here. The bot runs on a cron trigger and only sends.\n"@
}

/// What a build is stamped with.
pub fn stamp(commit: Option<String>, changes: Option<String>) -> (r: String)
    ensures
        r@ == stamp_of(commit.deep_view(), changes.deep_view()),
{
    let commit = match commit {
        Some(commit) => text::trim(&commit),
        None => "unknown".to_string(),
    };
    let dirty = match changes {
        Some(changes) => !text::trim(&changes).as_str().is_empty(),
        None => false,
    };
    if dirty {
        commit.concat("-dirty")
    } else {
        commit
    }
}

/// The page of the bot as built from `commit`.
pub fn describe(commit: &str) -> (r: String)
    ensures
        r@ == page(commit@),
{
    "kotlin-releases-bot\n\nAnnounces Kotlin releases and blog posts to Telegram.\n\nreleases  github api, newest published first\n          keeps vX.Y.Z and vX.Y.Z-RCn, drops betas and build-*-dev-*\nblog      ".to_string().concat(
        BLOG_URL,
    ).concat(
        "\n          every post\n\nEach feed has its own destination list and its own records.\nschedule  every 15 minutes\ncommit    ",
    ).concat(commit).concat(
        "\ncode      https://github.com/CommanderTvis/kotlin-releases-bot/commit/",
    ).concat(commit).concat(
        "\n\nThere is no API here. The bot runs on a cron trigger and only sends.\n",
    )
}

/// The page names the commit, and links to it, and is otherwise the same for
/// every commit.
pub proof fn law_the_page_names_its_commit(commit: Seq<char>)
    ensures
        page(commit)
            == "kotlin-releases-bot\n\nAnnounces Kotlin releases and blog posts to Telegram.\n\nreleases  github api, newest published first\n          keeps vX.Y.Z and vX.Y.Z-RCn, drops betas and build-*-dev-*\nblog      "@
            + "https://blog.jetbrains.com/kotlin/feed/"@
            + "\n          every post\n\nEach feed has its own destination list and its own records.\nschedule  every 15 minutes\ncommit    "@
            + commit
            + "\ncode      https://github.com/CommanderTvis/kotlin-releases-bot/commit/"@
            + commit
            + "\n\nThere is no API here. The bot runs on a cron trigger and only sends.\n"@,
{
}

/// A build is stamped with its commit, without the white space around it, or
/// with `unknown`; and marked as dirty just where there are changes.
pub proof fn law_a_build_is_stamped_with_its_commit(
    leading: Seq<char>,
    commit: Seq<char>,
    trailing: Seq<char>,
    changes: Seq<char>,
)
    requires
        text::blank(leading),
        text::blank(trailing),
        text::is_trimmed(commit),
    ensures
        stamp_of(Some(leading + commit + trailing), None) == commit,
        stamp_of(None, None) == "unknown"@,
        text::blank(changes) ==> stamp_of(Some(leading + commit + trailing), Some(changes))
            == commit && stamp_of(None, Some(changes)) == "unknown"@,
        !text::blank(changes) ==> stamp_of(Some(leading + commit + trailing), Some(changes))
            == commit + "-dirty"@ && stamp_of(None, Some(changes)) == "unknown"@ + "-dirty"@,
{
    text::law_trimming_takes_off_white_space(leading, commit, trailing);
    if text::blank(changes) {
        let nothing = Seq::<char>::empty();
        assert(text::blank(nothing));
        text::law_trimming_takes_off_white_space(changes, nothing, nothing);
        assert(changes + nothing + nothing =~= changes);
    } else if text::trimmed(changes).len() == 0 {
        text::lemma_trimmed_away(changes);
    }
}

} // verus!
