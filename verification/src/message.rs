//! The announcement as Telegram gets it: HTML with two tags, and everything
//! that comes from a feed escaped.

use vstd::prelude::*;
use vstd::string::*;

use crate::model::{Entry, EntryView, Feed};
use crate::releases;
use crate::text;

verus! {

/// One character as HTML text.
pub open spec fn escaped_char(c: char) -> Seq<char> {
    match c {
        '&' => "&amp;"@,
        '<' => "&lt;"@,
        '>' => "&gt;"@,
        _ => seq![c],
    }
}

/// `raw` as HTML text.
pub open spec fn escaped(raw: Seq<char>) -> Seq<char> {
    raw.flat_map(|c: char| escaped_char(c))
}

/// What an entry of `feed` with this id is called.
pub open spec fn kind(feed: Feed, id: Seq<char>) -> Seq<char> {
    match feed {
        Feed::Releases => if text::holds(id, "-RC"@) {
            "Kotlin release candidate"@
        } else {
            "Kotlin release"@
        },
        Feed::Blog => "Kotlin blog"@,
    }
}

/// The announcement of `entry`.
pub open spec fn message(feed: Feed, entry: EntryView) -> Seq<char> {
    "<b>"@ + kind(feed, entry.id) + "</b>\n<a href=\""@ + escaped(entry.link) + "\">"@ + escaped(
        entry.title,
    ) + "</a>"@
}

/// Replaces the three characters that HTML text may not hold.
pub fn escape_html(raw: &str) -> (r: String)
    ensures
        r@ == escaped(raw@),
{
    let mut r = String::new();
    let list = text::chars(raw);
    let mut i: usize = 0;
    let ghost f = |c: char| escaped_char(c);
    assert(raw@.take(0).flat_map(f) =~= Seq::<char>::empty());
    while i < list.len()
        invariant
            i <= list@.len(),
            list@ == raw@,
            f == (|c: char| escaped_char(c)),
            r@ == raw@.take(i as int).flat_map(f),
        decreases list@.len() - i,
    {
        let c = list[i];
        proof {
            raw@.lemma_flat_map_take_append(f, i as int);
        }
        let ghost before = r@;
        match c {
            '&' => r.append("&amp;"),
            '<' => r.append("&lt;"),
            '>' => r.append("&gt;"),
            _ => {
                r.push(c);
                assert(r@ =~= before + seq![c]);
            },
        }
        i = i + 1;
    }
    assert(raw@.take(i as int) =~= raw@);
    r
}

/// The announcement of `entry`: what it is, in bold, and on the next line its
/// title as a link.
pub fn format_message(feed: Feed, entry: &Entry) -> (r: String)
    ensures
        r@ == message(feed, entry@),
{
    let kind = match feed {
        Feed::Releases => if text::contains(&entry.id, "-RC") {
            "Kotlin release candidate"
        } else {
            "Kotlin release"
        },
        Feed::Blog => "Kotlin blog",
    };
    let link = escape_html(&entry.link);
    let title = escape_html(&entry.title);
    "<b>".to_string().concat(kind).concat("</b>\n<a href=\"").concat(&link).concat("\">").concat(
        &title,
    ).concat("</a>")
}

/// Of the tags that are announced, those of candidates are called candidates,
/// and those of finals are not.
pub proof fn law_candidates_are_called_candidates(
    major: Seq<char>,
    minor: Seq<char>,
    patch: Seq<char>,
    candidate: Option<Seq<char>>,
)
    requires
        releases::is_version(major, minor, patch, candidate),
    ensures
        kind(Feed::Releases, releases::tag_of(major, minor, patch, candidate)) == if candidate is Some {
            "Kotlin release candidate"@
        } else {
            "Kotlin release"@
        },
{
    reveal_strlit("v");
    reveal_strlit(".");
    reveal_strlit("-RC");
    let tag = releases::tag_of(major, minor, patch, candidate);
    match candidate {
        Some(number) => {
            let at = releases::tag_of(major, minor, patch, None).len() as int;
            assert(tag.subrange(at, at + 3) =~= "-RC"@);
            assert(text::stands_at(tag, "-RC"@, at));
        },
        None => {
            assert forall|i: int| 0 <= i < tag.len() implies #[trigger] tag[i] != '-' by {
                let a = 1 + major.len();
                let b = a + 1 + minor.len();
                if 0 < i < a {
                    assert(tag[i] == major[i - 1]);
                } else if a < i < b {
                    assert(tag[i] == minor[i - a - 1]);
                } else if b < i {
                    assert(tag[i] == patch[i - b - 1]);
                }
            }
            if text::holds(tag, "-RC"@) {
                let at = choose|at: int| text::stands_at(tag, "-RC"@, at);
                assert(tag.subrange(at, at + 3)[0] == tag[at]);
                assert("-RC"@[0] == '-');
            }
        },
    }
}

/// Escaping goes character by character.
proof fn lemma_escaped_front(raw: Seq<char>)
    requires
        raw.len() > 0,
    ensures
        escaped(raw) == escaped_char(raw[0]) + escaped(raw.skip(1)),
{
    let f = |c: char| escaped_char(c);
    let mapped = raw.map_values(f);
    assert(mapped.drop_first() =~= raw.skip(1).map_values(f));
    assert(mapped.flatten() == mapped.first() + mapped.drop_first().flatten());
}

/// What the escaped forms of single characters look like.
proof fn lemma_escaped_chars()
    ensures
        forall|c: char| #[trigger] escaped_char(c).len() > 0,
        escaped_char('&') =~= seq!['&', 'a', 'm', 'p', ';'],
        escaped_char('<') =~= seq!['&', 'l', 't', ';'],
        escaped_char('>') =~= seq!['&', 'g', 't', ';'],
{
    reveal_strlit("&amp;");
    reveal_strlit("&lt;");
    reveal_strlit("&gt;");
}

/// No markup comes out of a feed: escaped text opens and closes no tag.
pub proof fn law_escaped_text_holds_no_markup(raw: Seq<char>)
    ensures
        !escaped(raw).contains('<'),
        !escaped(raw).contains('>'),
    decreases raw.len(),
{
    lemma_escaped_chars();
    if raw.len() == 0 {
        assert(escaped(raw) =~= Seq::<char>::empty());
    } else {
        lemma_escaped_front(raw);
        law_escaped_text_holds_no_markup(raw.skip(1));
        let head = escaped_char(raw[0]);
        let tail = escaped(raw.skip(1));
        assert forall|i: int| 0 <= i < escaped(raw).len() implies escaped(raw)[i] != '<'
            && escaped(raw)[i] != '>' by {
            if i < head.len() {
                assert(escaped(raw)[i] == head[i]);
            } else {
                assert(escaped(raw)[i] == tail[i - head.len()]);
                assert(tail.contains(tail[i - head.len()]));
            }
        }
    }
}

/// Escaping loses nothing: different texts stay different.
pub proof fn law_escaping_is_injective(a: Seq<char>, b: Seq<char>)
    requires
        escaped(a) == escaped(b),
    ensures
        a == b,
    decreases a.len(),
{
    lemma_escaped_chars();
    if a.len() == 0 || b.len() == 0 {
        if a.len() > 0 {
            lemma_escaped_front(a);
            assert(escaped(b) =~= Seq::<char>::empty());
        } else if b.len() > 0 {
            lemma_escaped_front(b);
            assert(escaped(a) =~= Seq::<char>::empty());
        }
        assert(a =~= b);
    } else {
        lemma_escaped_front(a);
        lemma_escaped_front(b);
        let all = escaped(a);
        assert(all[0] == escaped_char(a[0])[0]);
        assert(all[0] == escaped_char(b[0])[0]);
        if escaped_char(a[0]).len() > 1 && escaped_char(b[0]).len() > 1 {
            assert(all[1] == escaped_char(a[0])[1]);
            assert(all[1] == escaped_char(b[0])[1]);
        }
        assert(a[0] == b[0]);
        let n = escaped_char(a[0]).len() as int;
        assert(all.skip(n) =~= escaped(a.skip(1)));
        assert(all.skip(n) =~= escaped(b.skip(1)));
        law_escaping_is_injective(a.skip(1), b.skip(1));
        assert(a =~= seq![a[0]] + a.skip(1));
        assert(b =~= seq![b[0]] + b.skip(1));
    }
}

/// Escaping goes part by part: nothing in one part of a text changes another.
pub proof fn law_escaping_goes_part_by_part(a: Seq<char>, b: Seq<char>)
    ensures
        escaped(a + b) == escaped(a) + escaped(b),
    decreases a.len(),
{
    if a.len() == 0 {
        assert(a + b =~= b);
        assert(escaped(a) =~= Seq::<char>::empty());
        assert(escaped(a) + escaped(b) =~= escaped(b));
    } else {
        lemma_escaped_front(a);
        lemma_escaped_front(a + b);
        assert((a + b).skip(1) =~= a.skip(1) + b);
        law_escaping_goes_part_by_part(a.skip(1), b);
        assert(escaped(a + b) =~= escaped(a) + escaped(b));
    }
}

/// Three characters are written as entities, and every other as itself.
pub proof fn law_three_characters_are_escaped(c: char)
    ensures
        escaped(seq!['&']) == "&amp;"@,
        escaped(seq!['<']) == "&lt;"@,
        escaped(seq!['>']) == "&gt;"@,
        c != '&' && c != '<' && c != '>' ==> escaped(seq![c]) == seq![c],
        escaped(Seq::<char>::empty()) == Seq::<char>::empty(),
{
    assert(escaped(Seq::<char>::empty()) =~= Seq::<char>::empty());
    assert forall|x: char| escaped(seq![x]) == #[trigger] escaped_char(x) by {
        lemma_escaped_front(seq![x]);
        assert(seq![x].skip(1) =~= Seq::<char>::empty());
        assert(escaped(seq![x]) =~= escaped_char(x));
    }
    assert(escaped(seq!['&']) == escaped_char('&'));
    assert(escaped(seq!['<']) == escaped_char('<'));
    assert(escaped(seq!['>']) == escaped_char('>'));
    assert(escaped(seq![c]) == escaped_char(c));
}

/// Text without any of the three characters is escaped to itself.
pub proof fn law_plain_text_is_escaped_to_itself(raw: Seq<char>)
    requires
        !raw.contains('&'),
        !raw.contains('<'),
        !raw.contains('>'),
    ensures
        escaped(raw) == raw,
    decreases raw.len(),
{
    if raw.len() == 0 {
        law_three_characters_are_escaped('a');
        assert(raw =~= Seq::<char>::empty());
    } else {
        let rest = raw.skip(1);
        assert(raw.contains(raw[0]));
        assert forall|i: int| 0 <= i < rest.len() implies raw.contains(#[trigger] rest[i]) by {
            assert(rest[i] == raw[i + 1]);
        }
        law_plain_text_is_escaped_to_itself(rest);
        law_three_characters_are_escaped(raw[0]);
        law_escaping_goes_part_by_part(seq![raw[0]], rest);
        assert(raw =~= seq![raw[0]] + rest);
    }
}

/// A message says what the entry is, in bold, and on the next line links its
/// whole title to its whole link. A release whose tag holds `-RC` is a
/// candidate.
pub proof fn law_a_message_is_laid_out_so(entry: EntryView)
    ensures
        ({
            let linked = "</b>\n<a href=\""@ + escaped(entry.link) + "\">"@ + escaped(entry.title)
                + "</a>"@;
            &&& message(Feed::Blog, entry) == "<b>"@ + "Kotlin blog"@ + linked
            &&& (exists|at: int|
                0 <= at && at + 3 <= entry.id.len() && #[trigger] entry.id.subrange(at, at + 3)
                    == "-RC"@) ==> message(Feed::Releases, entry) == "<b>"@
                + "Kotlin release candidate"@ + linked
            &&& !(exists|at: int|
                0 <= at && at + 3 <= entry.id.len() && #[trigger] entry.id.subrange(at, at + 3)
                    == "-RC"@) ==> message(Feed::Releases, entry) == "<b>"@ + "Kotlin release"@
                + linked
        }),
{
    reveal_strlit("-RC");
    assert("-RC"@.len() == 3);
    let linked = "</b>\n<a href=\""@ + escaped(entry.link) + "\">"@ + escaped(entry.title)
        + "</a>"@;
    assert(message(Feed::Blog, entry) =~= "<b>"@ + "Kotlin blog"@ + linked);
    if exists|at: int|
        0 <= at && at + 3 <= entry.id.len() && #[trigger] entry.id.subrange(at, at + 3) == "-RC"@ {
        let at = choose|at: int|
            0 <= at && at + 3 <= entry.id.len() && #[trigger] entry.id.subrange(at, at + 3)
                == "-RC"@;
        assert(text::stands_at(entry.id, "-RC"@, at));
        assert(message(Feed::Releases, entry) =~= "<b>"@ + "Kotlin release candidate"@ + linked);
    } else {
        assert(!text::holds(entry.id, "-RC"@)) by {
            if text::holds(entry.id, "-RC"@) {
                let at = choose|at: int| text::stands_at(entry.id, "-RC"@, at);
                assert(entry.id.subrange(at, at + 3) == "-RC"@);
            }
        }
        assert(message(Feed::Releases, entry) =~= "<b>"@ + "Kotlin release"@ + linked);
    }
}

} // verus!
