//! GitHub's release list: reading it, and telling the tags worth announcing
//! from the rest.

use vstd::prelude::*;
use vstd::string::*;

use crate::json;
use crate::model::{Entry, EntryView};
use crate::text;

verus! {

/// One release of the list. Only the three fields used are read, so the release
/// bodies and asset lists, most of the payload, are walked but never copied.
#[derive(Debug, PartialEq, Eq)]
pub struct ApiRelease {
    pub tag_name: String,
    pub name: Option<String>,
    pub html_url: String,
}

/// An [`ApiRelease`] over its texts.
pub struct ApiReleaseView {
    pub tag_name: Seq<char>,
    pub name: Option<Seq<char>>,
    pub html_url: Seq<char>,
}

impl View for ApiRelease {
    type V = ApiReleaseView;

    open spec fn view(&self) -> ApiReleaseView {
        ApiReleaseView {
            tag_name: self.tag_name@,
            name: self.name.deep_view(),
            html_url: self.html_url@,
        }
    }
}

impl DeepView for ApiRelease {
    type V = ApiReleaseView;

    open spec fn deep_view(&self) -> ApiReleaseView {
        self.view()
    }
}

/// The release whose three fields were read as these. A field is `None` if it
/// was read as something that is neither a string nor `null`, and `Some(None)`
/// if it is `null` or missing; only the name may be that.
pub open spec fn release_of(
    tag_name: Option<Option<Seq<char>>>,
    name: Option<Option<Seq<char>>>,
    html_url: Option<Option<Seq<char>>>,
) -> Option<ApiReleaseView> {
    match (tag_name, name, html_url) {
        (Some(Some(tag_name)), Some(name), Some(Some(html_url))) => Some(
            ApiReleaseView { tag_name, name, html_url },
        ),
        _ => None,
    }
}

/// What the one of `members` that is called `name` was read as. A member that is
/// missing counts as `null`, and one that comes twice as neither a string nor
/// `null`.
pub open spec fn string_member(
    members: Seq<(Seq<char>, Seq<char>)>,
    name: Seq<char>,
) -> Option<Option<Seq<char>>> {
    if json::repeats(members, name) {
        None
    } else {
        match json::lookup(members, name) {
            Some(value) => json::string_or_null(value),
            None => Some(None),
        }
    }
}

/// The release that the JSON text `text` describes: an object with the three
/// fields as members, none of them twice, or an array of just the three, in
/// order.
pub open spec fn release_in(text: Seq<char>) -> Option<ApiReleaseView> {
    match json::array_items(text) {
        Some(items) => if items.len() == 3 {
            release_of(
                json::string_or_null(items[0]),
                json::string_or_null(items[1]),
                json::string_or_null(items[2]),
            )
        } else {
            None
        },
        None => match json::object_members(text) {
            Some(members) => release_of(
                string_member(members, "tag_name"@),
                string_member(members, "name"@),
                string_member(members, "html_url"@),
            ),
            None => None,
        },
    }
}

/// The releases that `items` describe, if every one of them does.
pub open spec fn releases_in(items: Seq<Seq<char>>) -> Option<Seq<ApiReleaseView>> {
    if forall|i: int| 0 <= i < items.len() ==> release_in(#[trigger] items[i]) is Some {
        Some(items.map_values(|item: Seq<char>| release_in(item)->0))
    } else {
        None
    }
}

/// The releases of the list `json`; none if it is malformed anywhere.
pub open spec fn listed(json: Seq<char>) -> Seq<ApiReleaseView> {
    match json::array_items(json) {
        Some(items) => match releases_in(items) {
            Some(releases) => releases,
            None => seq![],
        },
        None => seq![],
    }
}

/// The entry of a release, which is titled by its tag if it has no name.
pub open spec fn release_entry(release: ApiReleaseView) -> EntryView {
    EntryView {
        id: release.tag_name,
        title: match release.name {
            Some(name) => if name.len() > 0 {
                name
            } else {
                release.tag_name
            },
            None => release.tag_name,
        },
        link: release.html_url,
    }
}

/// The entries of a list of releases.
pub open spec fn release_entries_of(releases: Seq<ApiReleaseView>) -> Seq<EntryView> {
    releases.map_values(|release: ApiReleaseView| release_entry(release))
}

/// Puts a release together from what its three fields were read as.
pub fn assemble(
    tag_name: Option<Option<String>>,
    name: Option<Option<String>>,
    html_url: Option<Option<String>>,
) -> (r: Option<ApiRelease>)
    ensures
        r.deep_view() == release_of(tag_name.deep_view(), name.deep_view(), html_url.deep_view()),
{
    match (tag_name, name, html_url) {
        (Some(Some(tag_name)), Some(name), Some(Some(html_url))) => Some(
            ApiRelease { tag_name, name, html_url },
        ),
        _ => None,
    }
}

/// What the one of `members` that is called `name` was read as.
fn read_string_member(members: &Vec<(String, &str)>, name: &str) -> (r: Option<Option<String>>)
    ensures
        r.deep_view() == string_member(members.deep_view(), name@),
{
    if json::repeated(members, name) {
        return None;
    }
    match json::value_of(members, name) {
        Some(value) => json::read_string_or_null(value),
        None => Some(None),
    }
}

/// Reads one release of the list.
pub fn read_release(text: &str) -> (r: Option<ApiRelease>)
    ensures
        r.deep_view() == release_in(text@),
{
    match json::read_items(text) {
        Some(items) => if items.len() == 3 {
            assert(items.deep_view()[0] == items@[0]@);
            assert(items.deep_view()[1] == items@[1]@);
            assert(items.deep_view()[2] == items@[2]@);
            assemble(
                json::read_string_or_null(items[0]),
                json::read_string_or_null(items[1]),
                json::read_string_or_null(items[2]),
            )
        } else {
            None
        },
        None => match json::read_members(text) {
            Some(members) => assemble(
                read_string_member(&members, "tag_name"),
                read_string_member(&members, "name"),
                read_string_member(&members, "html_url"),
            ),
            None => None,
        },
    }
}

/// The entries of a list of releases.
pub fn release_entries(releases: Vec<ApiRelease>) -> (r: Vec<Entry>)
    ensures
        r.deep_view() == release_entries_of(releases.deep_view()),
{
    let mut r: Vec<Entry> = Vec::new();
    let mut i: usize = 0;
    while i < releases.len()
        invariant
            i <= releases@.len(),
            r.deep_view() =~= release_entries_of(releases.deep_view().take(i as int)),
        decreases releases@.len() - i,
    {
        let ghost before = r.deep_view();
        let release = &releases[i];
        let title = match &release.name {
            Some(name) => if name.as_str().is_empty() {
                release.tag_name.clone()
            } else {
                name.clone()
            },
            None => release.tag_name.clone(),
        };
        let entry = Entry { id: release.tag_name.clone(), title, link: release.html_url.clone() };
        let ghost added = entry@;
        r.push(entry);
        assert(r.deep_view() =~= before.push(added));
        assert(added == release_entry(releases.deep_view()[i as int]));
        i = i + 1;
    }
    assert(releases.deep_view().take(i as int) =~= releases.deep_view());
    r
}

/// The releases of GitHub's release list, in its order. A list that is
/// malformed anywhere holds none.
pub fn parse_releases(json: &str) -> (r: Vec<Entry>)
    ensures
        r.deep_view() == release_entries_of(listed(json@)),
{
    let mut releases: Vec<ApiRelease> = Vec::new();
    match json::read_items(json) {
        Some(items) => {
            let ghost texts = items.deep_view();
            let mut i: usize = 0;
            while i < items.len()
                invariant
                    i <= items@.len(),
                    texts == items.deep_view(),
                    json::array_items(json@) == Some(texts),
                    forall|j: int| 0 <= j < i ==> release_in(#[trigger] texts[j]) is Some,
                    releases.deep_view() =~= texts.take(i as int).map_values(
                        |item: Seq<char>| release_in(item)->0,
                    ),
                decreases items@.len() - i,
            {
                let ghost before = releases.deep_view();
                assert(texts[i as int] == items@[i as int]@);
                match read_release(items[i]) {
                    Some(release) => {
                        let ghost added = release@;
                        releases.push(release);
                        assert(releases.deep_view() =~= before.push(added));
                    },
                    None => {
                        assert(release_in(texts[i as int]) is None);
                        let none: Vec<Entry> = Vec::new();
                        assert(none.deep_view() =~= release_entries_of(listed(json@)));
                        return none;
                    },
                }
                i = i + 1;
            }
            assert(texts.take(i as int) =~= texts);
        },
        None => {
            assert(releases.deep_view() =~= seq![]);
        },
    }
    release_entries(releases)
}

/// One malformed release empties the list.
pub proof fn law_one_malformed_release_empties_the_list(json: Seq<char>, i: int)
    requires
        json::array_items(json) is Some,
        0 <= i < json::array_items(json)->0.len(),
        release_in(json::array_items(json)->0[i]) is None,
    ensures
        listed(json) == Seq::<ApiReleaseView>::empty(),
{
}

/// An object in which one of the three fields comes twice is no release.
pub proof fn law_a_repeated_field_is_malformed(text: Seq<char>)
    requires
        json::array_items(text) is None,
        json::object_members(text) is Some,
        json::repeats(json::object_members(text)->0, "tag_name"@) || json::repeats(
            json::object_members(text)->0,
            "name"@,
        ) || json::repeats(json::object_members(text)->0, "html_url"@),
    ensures
        release_in(text) is None,
{
}

/// Whether every character of `s` is an ASCII digit.
pub open spec fn all_digits(s: Seq<char>) -> bool {
    forall|i: int| 0 <= i < s.len() ==> text::is_digit(#[trigger] s[i])
}

/// Whether `s` is a number.
pub open spec fn is_number(s: Seq<char>) -> bool {
    s.len() > 0 && all_digits(s)
}

/// How the tag of a version is written: of a final, or of a release candidate
/// with its number, which may be left out.
pub open spec fn tag_of(
    major: Seq<char>,
    minor: Seq<char>,
    patch: Seq<char>,
    candidate: Option<Seq<char>>,
) -> Seq<char> {
    let version = "v"@ + major + "."@ + minor + "."@ + patch;
    match candidate {
        Some(number) => version + "-RC"@ + number,
        None => version,
    }
}

/// Whether `major`, `minor`, `patch` and `candidate` are the parts of a version.
pub open spec fn is_version(
    major: Seq<char>,
    minor: Seq<char>,
    patch: Seq<char>,
    candidate: Option<Seq<char>>,
) -> bool {
    &&& is_number(major)
    &&& is_number(minor)
    &&& is_number(patch)
    &&& candidate is Some ==> all_digits(candidate->0)
}

/// Whether `tag` is the tag of a final or of a release candidate.
pub open spec fn is_release_tag(tag: Seq<char>) -> bool {
    exists|major: Seq<char>, minor: Seq<char>, patch: Seq<char>, candidate: Option<Seq<char>>|
        is_version(major, minor, patch, candidate) && tag == #[trigger] tag_of(
            major,
            minor,
            patch,
            candidate,
        )
}

/// Where the digits that start at `from` end.
spec fn digits_end(s: Seq<char>, from: int) -> int
    decreases s.len() - from,
{
    if 0 <= from < s.len() && text::is_digit(s[from]) {
        digits_end(s, from + 1)
    } else {
        from
    }
}

/// [`is_release_tag`], read from left to right.
spec fn scans_as_release(tag: Seq<char>) -> bool {
    let major = digits_end(tag, 1);
    let minor = digits_end(tag, major + 1);
    let patch = digits_end(tag, minor + 1);
    &&& tag.len() > 0
    &&& tag[0] == 'v'
    &&& 1 < major < tag.len()
    &&& tag[major] == '.'
    &&& major + 1 < minor < tag.len()
    &&& tag[minor] == '.'
    &&& minor + 1 < patch
    &&& patch == tag.len() || {
        &&& patch + 3 <= tag.len()
        &&& tag[patch] == '-'
        &&& tag[patch + 1] == 'R'
        &&& tag[patch + 2] == 'C'
        &&& digits_end(tag, patch + 3) == tag.len()
    }
}

proof fn lemma_digits_end(s: Seq<char>, from: int)
    requires
        0 <= from <= s.len(),
    ensures
        from <= digits_end(s, from) <= s.len(),
        forall|i: int| from <= i < digits_end(s, from) ==> text::is_digit(#[trigger] s[i]),
        digits_end(s, from) < s.len() ==> !text::is_digit(s[digits_end(s, from)]),
    decreases s.len() - from,
{
    if from < s.len() && text::is_digit(s[from]) {
        lemma_digits_end(s, from + 1);
    }
}

proof fn lemma_digits_end_is(s: Seq<char>, from: int, to: int)
    requires
        0 <= from <= to <= s.len(),
        forall|i: int| from <= i < to ==> text::is_digit(#[trigger] s[i]),
        to < s.len() ==> !text::is_digit(s[to]),
    ensures
        digits_end(s, from) == to,
    decreases to - from,
{
    if from < to {
        assert(text::is_digit(s[from]));
        lemma_digits_end_is(s, from + 1, to);
    }
}

/// A tag written from its parts is recognised from left to right.
proof fn lemma_written_tag_scans(
    major: Seq<char>,
    minor: Seq<char>,
    patch: Seq<char>,
    candidate: Option<Seq<char>>,
)
    requires
        is_version(major, minor, patch, candidate),
    ensures
        scans_as_release(tag_of(major, minor, patch, candidate)),
{
    reveal_strlit("v");
    reveal_strlit(".");
    reveal_strlit("-RC");
    let tag = tag_of(major, minor, patch, candidate);
    let a = 1 + major.len() as int;
    let b = a + 1 + minor.len();
    let c = b + 1 + patch.len();
    assert(tag[0] == 'v');
    assert(tag.subrange(1, a) =~= major);
    assert(tag[a] == '.');
    assert(tag.subrange(a + 1, b) =~= minor);
    assert(tag[b] == '.');
    assert(tag.subrange(b + 1, c) =~= patch);
    assert forall|i: int| 1 <= i < a implies text::is_digit(#[trigger] tag[i]) by {
        assert(tag[i] == major[i - 1]);
    }
    assert forall|i: int| a + 1 <= i < b implies text::is_digit(#[trigger] tag[i]) by {
        assert(tag[i] == minor[i - a - 1]);
    }
    assert forall|i: int| b + 1 <= i < c implies text::is_digit(#[trigger] tag[i]) by {
        assert(tag[i] == patch[i - b - 1]);
    }
    lemma_digits_end_is(tag, 1, a);
    lemma_digits_end_is(tag, a + 1, b);
    match candidate {
        Some(number) => {
            assert(tag[c] == '-' && tag[c + 1] == 'R' && tag[c + 2] == 'C');
            lemma_digits_end_is(tag, b + 1, c);
            assert forall|i: int| c + 3 <= i < tag.len() implies text::is_digit(
                #[trigger] tag[i],
            ) by {
                assert(tag[i] == number[i - c - 3]);
            }
            lemma_digits_end_is(tag, c + 3, tag.len() as int);
        },
        None => {
            lemma_digits_end_is(tag, b + 1, c);
        },
    }
}

/// A tag recognised from left to right is written from the parts that were
/// seen.
proof fn lemma_scanned_tag_is_written(tag: Seq<char>)
    requires
        scans_as_release(tag),
    ensures
        is_release_tag(tag),
{
    reveal_strlit("v");
    reveal_strlit(".");
    reveal_strlit("-RC");
    let a = digits_end(tag, 1);
    let b = digits_end(tag, a + 1);
    let c = digits_end(tag, b + 1);
    lemma_digits_end(tag, 1);
    lemma_digits_end(tag, a + 1);
    lemma_digits_end(tag, b + 1);
    let major = tag.subrange(1, a);
    let minor = tag.subrange(a + 1, b);
    let patch = tag.subrange(b + 1, c);
    let candidate = if c == tag.len() {
        None
    } else {
        lemma_digits_end(tag, c + 3);
        Some(tag.skip(c + 3))
    };
    assert(is_version(major, minor, patch, candidate));
    assert(tag =~= tag_of(major, minor, patch, candidate));
}

fn skip_digits(list: &Vec<char>, from: usize) -> (r: usize)
    requires
        from <= list@.len(),
    ensures
        r == digits_end(list@, from as int),
        from <= r <= list@.len(),
{
    let mut at: usize = from;
    while at < list.len() && '0' <= list[at] && list[at] <= '9'
        invariant
            from <= at <= list@.len(),
            digits_end(list@, from as int) == digits_end(list@, at as int),
        decreases list@.len() - at,
    {
        at = at + 1;
    }
    at
}

fn scan(list: &Vec<char>) -> (r: bool)
    ensures
        r == scans_as_release(list@),
{
    let len: usize = list.len();
    if len == 0 || list[0] != 'v' {
        return false;
    }
    let major: usize = skip_digits(list, 1);
    if major == 1 || major == len || list[major] != '.' {
        return false;
    }
    let minor: usize = skip_digits(list, major + 1);
    if minor == major + 1 || minor == len || list[minor] != '.' {
        return false;
    }
    let patch: usize = skip_digits(list, minor + 1);
    if patch == minor + 1 {
        return false;
    }
    if patch == len {
        return true;
    }
    len - patch >= 3 && list[patch] == '-' && list[patch + 1] == 'R' && list[patch + 2] == 'C'
        && skip_digits(list, patch + 3) == len
}

/// Finals (`v2.4.10`) and release candidates (`v2.4.20-RC`, `v2.4.20-RC3`).
/// Rejects betas and every `build-2.5.0-dev-6883` tag TeamCity pushes.
pub fn is_release(tag: &str) -> (r: bool)
    ensures
        r == is_release_tag(tag@),
{
    let list = text::chars(tag);
    let r = scan(&list);
    proof {
        if r {
            lemma_scanned_tag_is_written(tag@);
        } else if is_release_tag(tag@) {
            let (major, minor, patch, candidate) = parts(tag@);
            lemma_written_tag_scans(major, minor, patch, candidate);
        }
    }
    r
}

/// Tags that do not start with a `v` are no releases, such as every
/// `build-2.5.0-dev-6883`.
pub proof fn law_build_tags_are_rejected(rest: Seq<char>)
    ensures
        !is_release_tag("build-"@ + rest),
{
    reveal_strlit("build-");
    reveal_strlit("v");
    let tag = "build-"@ + rest;
    assert(tag[0] == 'b');
    if is_release_tag(tag) {
        let (major, minor, patch, candidate) = parts(tag);
        lemma_written_tag_scans(major, minor, patch, candidate);
    }
}

/// Betas are no releases, whatever their version and whatever follows.
pub proof fn law_betas_are_rejected(
    major: Seq<char>,
    minor: Seq<char>,
    patch: Seq<char>,
    rest: Seq<char>,
)
    requires
        is_version(major, minor, patch, None),
    ensures
        !is_release_tag(tag_of(major, minor, patch, None) + "-Beta"@ + rest),
{
    reveal_strlit("v");
    reveal_strlit(".");
    reveal_strlit("-Beta");
    let version = tag_of(major, minor, patch, None);
    let tag = version + "-Beta"@ + rest;
    if is_release_tag(tag) {
        let (other_major, other_minor, other_patch, candidate) = parts(tag);
        lemma_written_tag_scans(other_major, other_minor, other_patch, candidate);
        let a = 1 + major.len() as int;
        let b = a + 1 + minor.len();
        let c = b + 1 + patch.len();
        assert forall|i: int| 1 <= i < a implies text::is_digit(#[trigger] tag[i]) by {
            assert(tag[i] == major[i - 1]);
        }
        assert forall|i: int| a + 1 <= i < b implies text::is_digit(#[trigger] tag[i]) by {
            assert(tag[i] == minor[i - a - 1]);
        }
        assert forall|i: int| b + 1 <= i < c implies text::is_digit(#[trigger] tag[i]) by {
            assert(tag[i] == patch[i - b - 1]);
        }
        assert(tag[a] == '.' && tag[b] == '.' && tag[c] == '-' && tag[c + 1] == 'B');
        lemma_digits_end_is(tag, 1, a);
        lemma_digits_end_is(tag, a + 1, b);
        lemma_digits_end_is(tag, b + 1, c);
    }
}

/// The parts that the tag of a release is written from.
spec fn parts(tag: Seq<char>) -> (Seq<char>, Seq<char>, Seq<char>, Option<Seq<char>>) {
    choose|major: Seq<char>, minor: Seq<char>, patch: Seq<char>, candidate: Option<Seq<char>>|
        is_version(major, minor, patch, candidate) && tag == #[trigger] tag_of(
            major,
            minor,
            patch,
            candidate,
        )
}

/// A release is read from the three members of an object that are called
/// `tag_name`, `name` and `html_url`: its tag, its name and its link are the
/// strings that stand there. The name may be missing, or be `null`.
pub proof fn law_a_release_is_its_three_members(
    text: Seq<char>,
    t: int,
    u: int,
    n: int,
    tag_name: Seq<char>,
    html_url: Seq<char>,
    name: Option<Seq<char>>,
)
    requires
        json::array_items(text) is None,
        json::object_members(text) is Some,
        json::only_at(json::object_members(text)->0, "tag_name"@, t),
        json::string_or_null(json::object_members(text)->0[t].1) == Some(Some(tag_name)),
        json::only_at(json::object_members(text)->0, "html_url"@, u),
        json::string_or_null(json::object_members(text)->0[u].1) == Some(Some(html_url)),
    ensures
        json::nowhere(json::object_members(text)->0, "name"@) ==> release_in(text) == Some(
            ApiReleaseView { tag_name, name: None, html_url },
        ),
        json::only_at(json::object_members(text)->0, "name"@, n) && json::string_or_null(
            json::object_members(text)->0[n].1,
        ) == Some(name) ==> release_in(text) == Some(ApiReleaseView { tag_name, name, html_url }),
{
    let members = json::object_members(text)->0;
    json::lemma_only_at(members, "tag_name"@, t);
    json::lemma_only_at(members, "html_url"@, u);
    if json::nowhere(members, "name"@) {
        json::lemma_nowhere(members, "name"@);
    }
    if json::only_at(members, "name"@, n) {
        json::lemma_only_at(members, "name"@, n);
    }
}

/// No other object is read as a release: there is one member called `tag_name`
/// and one called `html_url`, both strings, and at most one called `name`.
pub proof fn law_only_such_objects_are_releases(text: Seq<char>)
    requires
        json::array_items(text) is None,
        release_in(text) is Some,
    ensures
        json::has_string(text, "tag_name"@, release_in(text)->0.tag_name),
        json::has_string(text, "html_url"@, release_in(text)->0.html_url),
        release_in(text)->0.name is Some ==> json::has_string(
            text,
            "name"@,
            release_in(text)->0.name->0,
        ),
        (json::has_none(text, "name"@) && release_in(text)->0.name is None) || exists|n: int|
            {
                &&& #[trigger] json::only_at(json::object_members(text)->0, "name"@, n)
                &&& json::string_or_null(json::object_members(text)->0[n].1) == Some(
                    release_in(text)->0.name,
                )
            },
{
    let members = json::object_members(text)->0;
    let t = json::lemma_found_once(members, "tag_name"@);
    let u = json::lemma_found_once(members, "html_url"@);
    assert(json::only_at(members, "tag_name"@, t));
    assert(json::only_at(members, "html_url"@, u));
    if json::lookup(members, "name"@) is Some {
        let n = json::lemma_found_once(members, "name"@);
        assert(json::only_at(members, "name"@, n));
    } else {
        let _ = json::lemma_lookup(members, "name"@);
    }
}

/// The test for being called `name`.
pub open spec fn is_called(name: Seq<char>) -> spec_fn((Seq<char>, Seq<char>)) -> bool {
    |member: (Seq<char>, Seq<char>)| member.0 == name
}

/// Those of `members` that are called `name`, in their order.
pub open spec fn called(members: Seq<(Seq<char>, Seq<char>)>, name: Seq<char>) -> Seq<
    (Seq<char>, Seq<char>),
> {
    members.filter(is_called(name))
}

/// Looking a name up, and whether it comes twice, depend on the members of that
/// name alone.
proof fn lemma_called(members: Seq<(Seq<char>, Seq<char>)>, name: Seq<char>)
    ensures
        json::repeats(members, name) <==> called(members, name).len() > 1,
        called(members, name).len() == 0 ==> json::nowhere(members, name),
        called(members, name).len() == 1 ==> json::lookup(members, name) == Some(
            called(members, name)[0].1,
        ),
    decreases members.len(),
{
    let keep = is_called(name);
    let of_name = called(members, name);
    assert forall|i: int| 0 <= i < members.len() && (#[trigger] members[i]).0 == name implies
        of_name.contains(members[i]) by {
        members.lemma_filter_contains(keep, i);
    }
    reveal(Seq::filter);
    if members.len() > 0 {
        let front = members.drop_last();
        lemma_called(front, name);
        let before = front.filter(keep);
        assert(before == called(front, name));
        if members.last().0 == name {
            assert(of_name =~= before.push(members.last()));
            if before.len() > 0 {
                front.lemma_filter_pred(keep, 0);
                assert(before.contains(before[0]));
                front.lemma_filter_contains_rev(keep, before[0]);
                let i = choose|i: int| 0 <= i < front.len() && front[i] == before[0];
                assert(members[i].0 == name && members[members.len() - 1].0 == name);
            } else {
                assert forall|j: int| 0 <= j < members.len() implies ((#[trigger] members[j]).0
                    == name <==> j == members.len() - 1) by {
                    if j < front.len() {
                        assert(members[j] == front[j]);
                    }
                }
                json::lemma_only_at(members, name, members.len() - 1);
            }
        } else {
            assert(of_name =~= before);
            if json::repeats(members, name) {
                let (i, j) = choose|i: int, j: int|
                    0 <= i < j < members.len() && (#[trigger] members[i]).0 == name && (
                    #[trigger] members[j]).0 == name;
                assert(front[i].0 == name && front[j].0 == name);
            }
            if json::repeats(front, name) {
                let (i, j) = choose|i: int, j: int|
                    0 <= i < j < front.len() && (#[trigger] front[i]).0 == name && (
                    #[trigger] front[j]).0 == name;
                assert(members[i].0 == name && members[j].0 == name);
            }
            if of_name.len() == 1 {
                let at = json::lemma_found_once(front, name);
                assert forall|j: int| 0 <= j < members.len() implies ((#[trigger] members[j]).0
                    == name <==> j == at) by {
                    if j < front.len() {
                        assert(members[j] == front[j]);
                    }
                }
                json::lemma_only_at(members, name, at);
                assert(members[at] == front[at]);
            }
            if of_name.len() == 0 {
                assert forall|j: int| 0 <= j < members.len() implies (#[trigger] members[j]).0
                    != name by {
                    if j < front.len() {
                        assert(members[j] == front[j]);
                    }
                }
            }
        }
    }
}

/// Other members have no influence: objects that agree on the members called
/// `tag_name`, `name` and `html_url` are read as the same release.
pub proof fn law_other_members_have_no_influence(a: Seq<char>, b: Seq<char>)
    requires
        json::array_items(a) is None,
        json::array_items(b) is None,
        json::object_members(a) is Some,
        json::object_members(b) is Some,
        called(json::object_members(a)->0, "tag_name"@) == called(
            json::object_members(b)->0,
            "tag_name"@,
        ),
        called(json::object_members(a)->0, "name"@) == called(json::object_members(b)->0, "name"@),
        called(json::object_members(a)->0, "html_url"@) == called(
            json::object_members(b)->0,
            "html_url"@,
        ),
    ensures
        release_in(a) == release_in(b),
{
    let one = json::object_members(a)->0;
    let two = json::object_members(b)->0;
    assert forall|name: Seq<char>|
        called(one, name) == called(two, name) implies #[trigger] string_member(one, name)
        == string_member(two, name) by {
        lemma_called(one, name);
        lemma_called(two, name);
        if called(one, name).len() == 0 {
            json::lemma_nowhere(one, name);
            json::lemma_nowhere(two, name);
        }
    }
    assert(string_member(one, "tag_name"@) == string_member(two, "tag_name"@));
    assert(string_member(one, "name"@) == string_member(two, "name"@));
    assert(string_member(one, "html_url"@) == string_member(two, "html_url"@));
}

/// A release may also be an array of the three strings, in order; the second
/// may be `null`.
pub proof fn law_a_release_may_be_an_array_of_three(text: Seq<char>, release: ApiReleaseView)
    requires
        json::array_items(text) is Some,
    ensures
        release_in(text) == Some(release) <==> {
            let items = json::array_items(text)->0;
            &&& items.len() == 3
            &&& json::string_or_null(items[0]) == Some(Some(release.tag_name))
            &&& json::string_or_null(items[1]) == Some(release.name)
            &&& json::string_or_null(items[2]) == Some(Some(release.html_url))
        },
{
}

/// The entry of a release has its tag for an id and its link for a link, and is
/// titled by its name, or by its tag if the name is missing or empty.
pub proof fn law_an_entry_says_what_its_release_says(releases: Seq<ApiReleaseView>, i: int)
    ensures
        release_entries_of(releases).len() == releases.len(),
        0 <= i < releases.len() ==> {
            let entry = release_entries_of(releases)[i];
            let release = releases[i];
            &&& entry.id == release.tag_name
            &&& entry.link == release.html_url
            &&& release.name is Some && release.name->0.len() > 0 ==> entry.title
                == release.name->0
            &&& release.name is None || release.name->0.len() == 0 ==> entry.title
                == release.tag_name
        },
{
}

/// A list in which every element is a release is read as those releases, in
/// order; what is no array lists none.
pub proof fn law_the_list_is_read_in_order(json: Seq<char>, i: int)
    ensures
        json::array_items(json) is None ==> listed(json).len() == 0,
        json::array_items(json) is Some && (forall|k: int|
            0 <= k < json::array_items(json)->0.len() ==> release_in(
                #[trigger] json::array_items(json)->0[k],
            ) is Some) ==> {
            &&& listed(json).len() == json::array_items(json)->0.len()
            &&& 0 <= i < listed(json).len() ==> Some(listed(json)[i]) == release_in(
                json::array_items(json)->0[i],
            )
        },
{
}

/// Whether `s` is made of the digits 0 to 9.
pub open spec fn plain_digits(s: Seq<char>) -> bool {
    forall|i: int| 0 <= i < s.len() ==> '0' <= (#[trigger] s[i]) && s[i] <= '9'
}

/// A release is tagged `vX.Y.Z` or `vX.Y.Z-RCn`, where `X`, `Y` and `Z` are
/// numbers and `n` is a number or left out, and nothing else is a release.
pub proof fn law_releases_are_tagged_so(tag: Seq<char>)
    ensures
        is_release_tag(tag) <==> exists|x: Seq<char>, y: Seq<char>, z: Seq<char>, n: Seq<char>|
            {
                &&& x.len() > 0 && #[trigger] plain_digits(x)
                &&& y.len() > 0 && #[trigger] plain_digits(y)
                &&& z.len() > 0 && #[trigger] plain_digits(z)
                &&& #[trigger] plain_digits(n)
                &&& tag == "v"@ + x + "."@ + y + "."@ + z || tag == "v"@ + x + "."@ + y + "."@ + z
                    + "-RC"@ + n
            },
{
    if is_release_tag(tag) {
        let (x, y, z, candidate) = parts(tag);
        let n = match candidate {
            Some(n) => n,
            None => Seq::<char>::empty(),
        };
        assert(plain_digits(x) && plain_digits(y) && plain_digits(z) && plain_digits(n));
    }
    if exists|x: Seq<char>, y: Seq<char>, z: Seq<char>, n: Seq<char>|
        {
            &&& x.len() > 0 && #[trigger] plain_digits(x)
            &&& y.len() > 0 && #[trigger] plain_digits(y)
            &&& z.len() > 0 && #[trigger] plain_digits(z)
            &&& #[trigger] plain_digits(n)
            &&& tag == "v"@ + x + "."@ + y + "."@ + z || tag == "v"@ + x + "."@ + y + "."@ + z
                + "-RC"@ + n
        } {
        let (x, y, z, n) = choose|x: Seq<char>, y: Seq<char>, z: Seq<char>, n: Seq<char>|
            {
                &&& x.len() > 0 && #[trigger] plain_digits(x)
                &&& y.len() > 0 && #[trigger] plain_digits(y)
                &&& z.len() > 0 && #[trigger] plain_digits(z)
                &&& #[trigger] plain_digits(n)
                &&& tag == "v"@ + x + "."@ + y + "."@ + z || tag == "v"@ + x + "."@ + y + "."@ + z
                    + "-RC"@ + n
            };
        if tag == "v"@ + x + "."@ + y + "."@ + z {
            assert(is_version(x, y, z, None));
            assert(tag == tag_of(x, y, z, None));
        } else {
            assert(is_version(x, y, z, Some(n)));
            assert(tag == tag_of(x, y, z, Some(n)));
        }
    }
}

/// A release is seen as the texts it holds.
pub proof fn law_a_release_is_its_texts(release: ApiRelease)
    ensures
        release.deep_view() == release@,
        release@.tag_name == release.tag_name@,
        release@.html_url == release.html_url@,
        release.name is None ==> release@.name is None,
        release.name is Some ==> release@.name == Some(release.name->0@),
{
}

} // verus!
