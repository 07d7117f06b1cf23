//! JSON, as `serde_json` reads and writes it. That crate decides what is an
//! array and what an object, and reads every value and every name; what is done
//! here is to step from one element or member to the next.

use vstd::prelude::*;
use vstd::string::*;

use crate::text;

verus! {

/// Whether `text` is a JSON array.
pub uninterp spec fn is_array(text: Seq<char>) -> bool;

/// Whether `text` is a JSON object.
pub uninterp spec fn is_object(text: Seq<char>) -> bool;

/// The string that `text` starts with, as JSON, and what follows it; nothing if
/// it starts with none.
pub uninterp spec fn leading_string(text: Seq<char>) -> Option<(Seq<char>, Seq<char>)>;

/// The part of `text` up to the end of the JSON value that it starts with, and
/// what follows it; nothing if it starts with none.
pub uninterp spec fn leading_value(text: Seq<char>) -> Option<(Seq<char>, Seq<char>)>;

/// The string that the JSON text `text` stands for, `Some(None)` for `null`,
/// and nothing for any other text.
pub uninterp spec fn string_or_null(text: Seq<char>) -> Option<Option<Seq<char>>>;

/// What reading `text` as a JSON array of strings gives: the strings, or the
/// message of the error.
pub uninterp spec fn string_list(text: Seq<char>) -> Result<Seq<Seq<char>>, Seq<char>>;

/// The JSON text of a list of strings.
pub uninterp spec fn list_text(list: Seq<Seq<char>>) -> Seq<char>;

/// The JSON text of an object with these members, all of them strings.
pub uninterp spec fn object_text(members: Seq<(Seq<char>, Seq<char>)>) -> Seq<char>;

/// The member `name` of the JSON object `text`, if it is a boolean.
pub uninterp spec fn flag_in(text: Seq<char>, name: Seq<char>) -> Option<bool>;

/// The value at the JSON pointer `pointer` in the JSON text `text`, if it is a
/// number that fits `u64`.
pub uninterp spec fn number_at(text: Seq<char>, pointer: Seq<char>) -> Option<u64>;

/// Whether `c` is white space between JSON tokens.
pub open spec fn is_blank(c: char) -> bool {
    c == ' ' || c == '\t' || c == '\n' || c == '\r'
}

/// What follows `mark`, which stands at the start of `text` but for white
/// space; empty if it does not.
pub open spec fn behind_mark(text: Seq<char>, mark: char) -> Seq<char>
    decreases text.len(),
{
    if text.len() == 0 {
        seq![]
    } else if text[0] == mark {
        text.skip(1)
    } else if is_blank(text[0]) {
        behind_mark(text.skip(1), mark)
    } else {
        seq![]
    }
}

/// The values that `text` starts with, separated by commas, each as JSON text.
pub open spec fn values_from(text: Seq<char>) -> Seq<Seq<char>>
    decreases text.len(),
{
    match leading_value(text) {
        Some((value, rest)) => if behind_mark(rest, ',').len() < text.len() {
            seq![value] + values_from(behind_mark(rest, ','))
        } else {
            seq![value]
        },
        None => seq![],
    }
}

/// The member that `text` starts with, its value as JSON text, and what follows
/// it; nothing if it starts with none.
pub open spec fn leading_member(text: Seq<char>) -> Option<((Seq<char>, Seq<char>), Seq<char>)> {
    match leading_string(text) {
        Some((name, rest)) => match leading_value(behind_mark(rest, ':')) {
            Some((value, rest)) => Some(((name, value), rest)),
            None => None,
        },
        None => None,
    }
}

/// The members that `text` starts with, separated by commas, each value as JSON
/// text.
pub open spec fn members_from(text: Seq<char>) -> Seq<(Seq<char>, Seq<char>)>
    decreases text.len(),
{
    match leading_member(text) {
        Some((member, rest)) => if behind_mark(rest, ',').len() < text.len() {
            seq![member] + members_from(behind_mark(rest, ','))
        } else {
            seq![member]
        },
        None => seq![],
    }
}

/// The elements of the JSON array `text`, each as JSON text; nothing if `text`
/// is not a JSON array.
pub open spec fn array_items(text: Seq<char>) -> Option<Seq<Seq<char>>> {
    if is_array(text) {
        Some(values_from(behind_mark(text, '[')))
    } else {
        None
    }
}

/// The members of the JSON object `text`, in order, each as often as it comes
/// and with its value as JSON text; nothing if `text` is not a JSON object.
pub open spec fn object_members(text: Seq<char>) -> Option<Seq<(Seq<char>, Seq<char>)>> {
    if is_object(text) {
        Some(members_from(behind_mark(text, '{')))
    } else {
        None
    }
}

/// The value of the first of `members` that is called `name`.
pub open spec fn lookup(members: Seq<(Seq<char>, Seq<char>)>, name: Seq<char>) -> Option<Seq<char>>
    decreases members.len(),
{
    if members.len() == 0 {
        None
    } else if members[0].0 == name {
        Some(members[0].1)
    } else {
        lookup(members.skip(1), name)
    }
}

/// Whether two of `members` are called `name`.
pub open spec fn repeats(members: Seq<(Seq<char>, Seq<char>)>, name: Seq<char>) -> bool {
    exists|i: int, j: int|
        0 <= i < j < members.len() && (#[trigger] members[i]).0 == name && (
        #[trigger] members[j]).0 == name
}

/// Whether `text` is read as the JSON array of the strings in `list`.
pub open spec fn reads_as(text: Seq<char>, list: Seq<Seq<char>>) -> bool {
    string_list(text) == Ok::<Seq<Seq<char>>, Seq<char>>(list)
}

/// Whether the JSON object `text` has the members `members`, all of them
/// strings, and no others.
pub open spec fn carries(text: Seq<char>, members: Seq<(Seq<char>, Seq<char>)>) -> bool {
    &&& object_members(text) is Some
    &&& object_members(text)->0.len() == members.len()
    &&& forall|i: int|
        0 <= i < members.len() ==> {
            let value = lookup(object_members(text)->0, (#[trigger] members[i]).0);
            &&& value is Some
            &&& string_or_null(value->0) == Some(Some(members[i].1))
        }
}

/// Whether the `i`th of `members`, and no other, is called `name`.
pub open spec fn only_at(members: Seq<(Seq<char>, Seq<char>)>, name: Seq<char>, i: int) -> bool {
    &&& 0 <= i < members.len()
    &&& forall|j: int| 0 <= j < members.len() ==> ((#[trigger] members[j]).0 == name <==> j == i)
}

/// Whether none of `members` is called `name`.
pub open spec fn nowhere(members: Seq<(Seq<char>, Seq<char>)>, name: Seq<char>) -> bool {
    forall|j: int| 0 <= j < members.len() ==> (#[trigger] members[j]).0 != name
}

/// Whether `text` is a JSON object in which one member is called `name`, and is
/// the string `value`.
pub open spec fn has_string(text: Seq<char>, name: Seq<char>, value: Seq<char>) -> bool {
    &&& object_members(text) is Some
    &&& exists|i: int|
        {
            &&& #[trigger] only_at(object_members(text)->0, name, i)
            &&& string_or_null(object_members(text)->0[i].1) == Some(Some(value))
        }
}

/// Whether `text` is a JSON object in which no member is called `name`.
pub open spec fn has_none(text: Seq<char>, name: Seq<char>) -> bool {
    object_members(text) is Some && nowhere(object_members(text)->0, name)
}

/// Whether no two of `members` share a name.
pub open spec fn distinct_names(members: Seq<(Seq<char>, Seq<char>)>) -> bool {
    forall|i: int, j: int| 0 <= i < j < members.len() ==> members[i].0 != members[j].0
}

/// The views inside what [`read_strings`] returns.
pub open spec fn strings_result(r: Result<Vec<String>, String>) -> Result<Seq<Seq<char>>, Seq<char>> {
    match r {
        Ok(list) => Ok(list.deep_view()),
        Err(message) => Err(message@),
    }
}

/// `serde_json::from_str` into a `Vec<IgnoredAny>`: whether it succeeds. The
/// result depends on `text` alone.
#[verifier::external_body]
pub(crate) fn reads_as_array(text: &str) -> (r: bool)
    ensures
        r == is_array(text@),
{
    serde_json::from_str::<Vec<serde::de::IgnoredAny>>(text).is_ok()
}

/// `serde_json::from_str` into a `BTreeMap<String, IgnoredAny>`: whether it
/// succeeds. The result depends on `text` alone.
#[verifier::external_body]
pub(crate) fn reads_as_object(text: &str) -> (r: bool)
    ensures
        r == is_object(text@),
{
    serde_json::from_str::<std::collections::BTreeMap<String, serde::de::IgnoredAny>>(text).is_ok()
}

/// `serde_json::StreamDeserializer` over `String`s: the first of them, and what
/// stands in `text` from its `byte_offset` on, which leaves out at least the
/// string. The result depends on `text` alone.
#[verifier::external_body]
pub(crate) fn read_leading_string<'a>(text: &'a str) -> (r: Option<(String, &'a str)>)
    ensures
        r.deep_view() == leading_string(text@),
        r is Some ==> (r->0).1@.len() < text@.len(),
{
    let mut values = serde_json::Deserializer::from_str(text).into_iter::<String>();
    let first = values.next()?.ok()?;
    Some((first, &text[values.byte_offset()..]))
}

/// `serde_json::StreamDeserializer` over `IgnoredAny`s: what stands in `text` up
/// to its `byte_offset` after the first of them, and what stands there from
/// that on, which leaves out at least the value. The result depends on `text`
/// alone.
#[verifier::external_body]
pub(crate) fn read_leading_value<'a>(text: &'a str) -> (r: Option<(&'a str, &'a str)>)
    ensures
        r.deep_view() == leading_value(text@),
        r is Some ==> (r->0).1@.len() < text@.len(),
{
    let mut values = serde_json::Deserializer::from_str(text).into_iter::<serde::de::IgnoredAny>();
    values.next()?.ok()?;
    Some(text.split_at(values.byte_offset()))
}

/// `serde_json::from_str` into an `Option<String>`. The result depends on
/// `text` alone.
#[verifier::external_body]
pub(crate) fn read_string_or_null(text: &str) -> (r: Option<Option<String>>)
    ensures
        r.deep_view() == string_or_null(text@),
{
    serde_json::from_str::<Option<String>>(text).ok()
}

/// `serde_json::from_str` into a `Vec<String>`, an error handed out as its
/// message. The result depends on `text` alone.
#[verifier::external_body]
pub(crate) fn read_strings(text: &str) -> (r: Result<Vec<String>, String>)
    ensures
        strings_result(r) == string_list(text@),
{
    serde_json::from_str::<Vec<String>>(text).map_err(|e| e.to_string())
}

/// `serde_json::to_string` of a list of strings. It fails only where a
/// `Serialize` impl does, or on a map whose keys are no strings, so it does not
/// fail here; the text depends on the list alone, and reading it as a list of
/// strings gives the same list back.
#[verifier::external_body]
pub(crate) fn write_strings(list: &[String]) -> (r: Option<String>)
    ensures
        r.deep_view() == Some(list_text(list.deep_view())),
        reads_as(r->0@, list.deep_view()),
{
    serde_json::to_string(list).ok()
}

/// The `Display` text of a `serde_json::Value` that is an object of strings.
/// The text depends on the members alone, and reading it back gives them and no
/// others, if no two share a name.
#[verifier::external_body]
pub(crate) fn write_object(members: &Vec<(String, String)>) -> (r: String)
    ensures
        r@ == object_text(members.deep_view()),
        distinct_names(members.deep_view()) ==> carries(r@, members.deep_view()),
{
    serde_json::Value::Object(
        members.iter().map(|(name, value)| (name.clone(), serde_json::Value::String(value.clone()))).collect(),
    )
    .to_string()
}

/// `serde_json::from_str` into a `Value`, then `Value::get` and
/// `Value::as_bool`. The result depends on `text` and `name` alone.
#[verifier::external_body]
pub(crate) fn read_flag(text: &str, name: &str) -> (r: Option<bool>)
    ensures
        r == flag_in(text@, name@),
{
    serde_json::from_str::<serde_json::Value>(text).ok()?.get(name)?.as_bool()
}

/// `serde_json::from_str` into a `Value`, then `Value::pointer` and
/// `Value::as_u64`. The result depends on `text` and `pointer` alone.
#[verifier::external_body]
pub(crate) fn read_number(text: &str, pointer: &str) -> (r: Option<u64>)
    ensures
        r == number_at(text@, pointer@),
{
    serde_json::from_str::<serde_json::Value>(text).ok()?.pointer(pointer)?.as_u64()
}

/// What follows `mark`, which stands at the start of `text` but for white
/// space; empty if it does not.
fn step<'a>(text: &'a str, mark: char) -> (r: &'a str)
    requires
        mark <= '\u{7f}',
    ensures
        r@ == behind_mark(text@, mark),
        r@.len() <= text@.len(),
{
    let mut rest = text;
    loop
        invariant
            mark <= '\u{7f}',
            behind_mark(text@, mark) == behind_mark(rest@, mark),
            rest@.len() <= text@.len(),
        decreases rest@.len(),
    {
        match text::split_ascii(rest) {
            Some((c, following)) => {
                if c == mark {
                    return following;
                }
                if c != ' ' && c != '\t' && c != '\n' && c != '\r' {
                    return nothing();
                }
                rest = following;
            },
            None => {
                return nothing();
            },
        }
    }
}

fn nothing() -> (r: &'static str)
    ensures
        r@ == Seq::<char>::empty(),
{
    proof {
        reveal_strlit("");
    }
    assert(""@ =~= Seq::<char>::empty());
    ""
}

/// The elements of the JSON array `text`, each as JSON text; nothing if `text`
/// is not a JSON array.
pub fn read_items<'a>(text: &'a str) -> (r: Option<Vec<&'a str>>)
    ensures
        r.deep_view() == array_items(text@),
{
    if !reads_as_array(text) {
        return None;
    }
    let mut items: Vec<&'a str> = Vec::new();
    let mut rest = step(text, '[');
    let ghost all = values_from(rest@);
    assert(items.deep_view() + values_from(rest@) =~= all);
    loop
        invariant_except_break
            items.deep_view() + values_from(rest@) == all,
        ensures
            items.deep_view() == all,
        decreases rest@.len(),
    {
        match read_leading_value(rest) {
            Some((value, following)) => {
                let ghost before = items.deep_view();
                let next = step(following, ',');
                items.push(value);
                assert(leading_value(rest@) == Some((value@, following@)));
                assert(items.deep_view() =~= before.push(value@));
                assert(items.deep_view() + values_from(next@) =~= before + values_from(rest@));
                rest = next;
            },
            None => {
                assert(items.deep_view() + values_from(rest@) =~= items.deep_view());
                break;
            },
        }
    }
    Some(items)
}

/// The members of the JSON object `text`, in order, each as often as it comes
/// and with its value as JSON text; nothing if `text` is not a JSON object.
pub fn read_members<'a>(text: &'a str) -> (r: Option<Vec<(String, &'a str)>>)
    ensures
        r.deep_view() == object_members(text@),
{
    if !reads_as_object(text) {
        return None;
    }
    let mut members: Vec<(String, &'a str)> = Vec::new();
    let mut rest = step(text, '{');
    let ghost all = members_from(rest@);
    assert(members.deep_view() + members_from(rest@) =~= all);
    loop
        invariant_except_break
            members.deep_view() + members_from(rest@) == all,
        ensures
            members.deep_view() == all,
        decreases rest@.len(),
    {
        match read_leading_member(rest) {
            Some((member, following)) => {
                let ghost before = members.deep_view();
                let ghost added = member.deep_view();
                let next = step(following, ',');
                members.push(member);
                assert(leading_member(rest@) == Some((added, following@)));
                assert(members.deep_view() =~= before.push(added));
                assert(members.deep_view() + members_from(next@) =~= before + members_from(rest@));
                rest = next;
            },
            None => {
                assert(members.deep_view() + members_from(rest@) =~= members.deep_view());
                break;
            },
        }
    }
    Some(members)
}

fn read_leading_member<'a>(text: &'a str) -> (r: Option<((String, &'a str), &'a str)>)
    ensures
        r.deep_view() == leading_member(text@),
        r is Some ==> (r->0).1@.len() < text@.len(),
{
    match read_leading_string(text) {
        Some((name, rest)) => match read_leading_value(step(rest, ':')) {
            Some((value, rest)) => Some(((name, value), rest)),
            None => None,
        },
        None => None,
    }
}

/// Whether two of `members` are called `name`.
pub fn repeated(members: &Vec<(String, &str)>, name: &str) -> (r: bool)
    ensures
        r == repeats(members.deep_view(), name@),
{
    let ghost all = members.deep_view();
    let mut found = false;
    let ghost mut at: int = 0;
    let mut i: usize = 0;
    while i < members.len()
        invariant
            i <= members@.len(),
            all == members.deep_view(),
            found ==> 0 <= at < i && all[at].0 == name@,
            forall|k: int| 0 <= k < i && (#[trigger] all[k]).0 == name@ ==> found && k == at,
        decreases members@.len() - i,
    {
        let member = &members[i];
        if text::same(&member.0, name) {
            assert(all[i as int].0 == name@);
            if found {
                assert(all[at].0 == name@ && all[i as int].0 == name@);
                return true;
            }
            found = true;
            proof {
                at = i as int;
            }
        } else {
            assert(all[i as int].0 != name@);
        }
        i = i + 1;
    }
    false
}

/// The value of the first of `members` that is called `name`.
pub fn value_of<'a>(members: &Vec<(String, &'a str)>, name: &str) -> (r: Option<&'a str>)
    ensures
        r.deep_view() == lookup(members.deep_view(), name@),
{
    let ghost all = members.deep_view();
    let mut i: usize = 0;
    assert(all.skip(0) =~= all);
    while i < members.len()
        invariant
            i <= members@.len(),
            all == members.deep_view(),
            lookup(all, name@) == lookup(all.skip(i as int), name@),
        decreases members@.len() - i,
    {
        let member = &members[i];
        assert(all.skip(i as int)[0] == all[i as int]);
        assert(all.skip(i as int).skip(1) =~= all.skip(i + 1));
        if text::same(&member.0, name) {
            return Some(member.1);
        }
        i = i + 1;
    }
    None
}

/// What looking a member up finds is a member of that name, the first one.
pub proof fn lemma_lookup(members: Seq<(Seq<char>, Seq<char>)>, name: Seq<char>) -> (at: int)
    ensures
        lookup(members, name) is None <==> nowhere(members, name),
        lookup(members, name) is Some ==> {
            &&& 0 <= at < members.len()
            &&& members[at].0 == name
            &&& lookup(members, name) == Some(members[at].1)
        },
    decreases members.len(),
{
    if members.len() == 0 {
        0
    } else if members[0].0 == name {
        assert(members[0].0 == name);
        0
    } else {
        let rest = members.skip(1);
        let at = lemma_lookup(rest, name);
        if nowhere(rest, name) {
            assert forall|j: int| 0 <= j < members.len() implies (#[trigger] members[j]).0
                != name by {
                if j > 0 {
                    assert(members[j] == rest[j - 1]);
                }
            }
        } else {
            assert(members[at + 1] == rest[at]);
        }
        at + 1
    }
}

/// The one member of a name is found, and does not come twice.
pub proof fn lemma_only_at(members: Seq<(Seq<char>, Seq<char>)>, name: Seq<char>, i: int)
    requires
        only_at(members, name, i),
    ensures
        lookup(members, name) == Some(members[i].1),
        !repeats(members, name),
{
    assert(members[i].0 == name);
    let at = lemma_lookup(members, name);
    assert(members[at].0 == name);
}

/// A name that none has is not found, and does not come twice.
pub proof fn lemma_nowhere(members: Seq<(Seq<char>, Seq<char>)>, name: Seq<char>)
    requires
        nowhere(members, name),
    ensures
        lookup(members, name) is None,
        !repeats(members, name),
{
    let _ = lemma_lookup(members, name);
}

/// A name that is found, and does not come twice, is that of one member.
pub proof fn lemma_found_once(members: Seq<(Seq<char>, Seq<char>)>, name: Seq<char>) -> (at: int)
    requires
        lookup(members, name) is Some,
        !repeats(members, name),
    ensures
        only_at(members, name, at),
        lookup(members, name) == Some(members[at].1),
{
    let at = lemma_lookup(members, name);
    assert forall|j: int| 0 <= j < members.len() implies ((#[trigger] members[j]).0 == name <==> j
        == at) by {
        if members[j].0 == name && j != at {
            assert(members[j].0 == name && members[at].0 == name);
        }
    }
    at
}

/// As many numbers below `n`, all of them different, are all the numbers below
/// `n`.
proof fn lemma_all_places(places: Seq<int>, n: nat, j: int)
    requires
        places.len() == n,
        places.no_duplicates(),
        forall|i: int| 0 <= i < n ==> 0 <= #[trigger] places[i] < n,
        0 <= j < n,
    ensures
        exists|i: int| 0 <= i < n && #[trigger] places[i] == j,
{
    let all = vstd::set_lib::set_int_range(0, n as int);
    vstd::set_lib::lemma_int_range(0, n as int);
    places.unique_seq_to_set();
    assert(places.to_set().subset_of(all)) by {
        assert forall|x: int| places.to_set().contains(x) implies all.contains(x) by {
            let i = choose|i: int| 0 <= i < places.len() && places[i] == x;
            assert(0 <= places[i] < n);
        }
    }
    vstd::set_lib::lemma_subset_equality(places.to_set(), all);
    assert(places.to_set().contains(j));
}

/// An object that carries members has each of them, as the one member of its
/// name, and no others.
pub proof fn lemma_carries(text: Seq<char>, members: Seq<(Seq<char>, Seq<char>)>)
    requires
        carries(text, members),
        distinct_names(members),
    ensures
        forall|i: int|
            0 <= i < members.len() ==> has_string(
                text,
                (#[trigger] members[i]).0,
                members[i].1,
            ),
        forall|name: Seq<char>| nowhere(members, name) ==> #[trigger] has_none(text, name),
{
    let all = object_members(text)->0;
    let n = members.len();
    let places = Seq::new(
        n,
        |i: int| choose|at: int| 0 <= at < all.len() && all[at].0 == members[i].0 && lookup(
            all,
            members[i].0,
        ) == Some(all[at].1),
    );
    assert forall|i: int| 0 <= i < n implies {
        let at = #[trigger] places[i];
        0 <= at < n && all[at].0 == members[i].0 && lookup(all, members[i].0) == Some(all[at].1)
    } by {
        assert(lookup(all, members[i].0) is Some);
        let at = lemma_lookup(all, members[i].0);
        assert(all[at].0 == members[i].0);
    }
    assert forall|i: int, j: int| 0 <= i < j < n implies places[i] != places[j] by {
        assert(all[places[i]].0 == members[i].0);
        assert(all[places[j]].0 == members[j].0);
    }
    assert(places.no_duplicates());
    assert forall|j: int| 0 <= j < n implies exists|i: int|
        0 <= i < n && (#[trigger] members[i]).0 == (#[trigger] all[j]).0 && places[i] == j by {
        lemma_all_places(places, n, j);
        let i = choose|i: int| 0 <= i < n && #[trigger] places[i] == j;
        assert(members[i].0 == all[j].0);
    }
    assert forall|i: int| 0 <= i < n implies has_string(
        text,
        (#[trigger] members[i]).0,
        members[i].1,
    ) by {
        let at = places[i];
        assert forall|j: int| 0 <= j < all.len() implies ((#[trigger] all[j]).0 == members[i].0
            <==> j == at) by {
            let k = choose|k: int|
                0 <= k < n && (#[trigger] members[k]).0 == all[j].0 && places[k] == j;
            if all[j].0 == members[i].0 && k != i {
                assert(members[k].0 == members[i].0);
            }
        }
        assert(only_at(all, members[i].0, at));
        assert(string_or_null(all[at].1) == Some(Some(members[i].1)));
    }
    assert forall|name: Seq<char>| nowhere(members, name) implies #[trigger] has_none(
        text,
        name,
    ) by {
        assert forall|j: int| 0 <= j < all.len() implies (#[trigger] all[j]).0 != name by {
            let k = choose|k: int|
                0 <= k < n && (#[trigger] members[k]).0 == all[j].0 && places[k] == j;
            assert(members[k].0 != name);
        }
    }
}

/// White space before a mark is stepped over, and nothing else is.
pub proof fn law_a_mark_is_found_behind_white_space(
    blanks: Seq<char>,
    mark: char,
    rest: Seq<char>,
)
    requires
        mark != ' ' && mark != '\t' && mark != '\n' && mark != '\r',
        forall|i: int|
            0 <= i < blanks.len() ==> (#[trigger] blanks[i]) == ' ' || blanks[i] == '\t'
                || blanks[i] == '\n' || blanks[i] == '\r',
    ensures
        behind_mark(blanks + seq![mark] + rest, mark) == rest,
    decreases blanks.len(),
{
    let whole = blanks + seq![mark] + rest;
    if blanks.len() == 0 {
        assert(whole[0] == mark);
        assert(whole.skip(1) =~= rest);
    } else {
        assert(whole[0] == blanks[0]);
        assert forall|i: int| 0 <= i < blanks.skip(1).len() implies (
        #[trigger] blanks.skip(1)[i]) == ' ' || blanks.skip(1)[i] == '\t' || blanks.skip(1)[i]
            == '\n' || blanks.skip(1)[i] == '\r' by {
            assert(blanks.skip(1)[i] == blanks[i + 1]);
        }
        law_a_mark_is_found_behind_white_space(blanks.skip(1), mark, rest);
        assert(whole.skip(1) =~= blanks.skip(1) + seq![mark] + rest);
    }
}

/// Where another character stands first, the mark is not there.
pub proof fn law_no_mark_is_found_behind_anything_else(
    blanks: Seq<char>,
    other: char,
    mark: char,
    rest: Seq<char>,
)
    requires
        other != mark && other != ' ' && other != '\t' && other != '\n' && other != '\r',
        mark != ' ' && mark != '\t' && mark != '\n' && mark != '\r',
        forall|i: int|
            0 <= i < blanks.len() ==> (#[trigger] blanks[i]) == ' ' || blanks[i] == '\t'
                || blanks[i] == '\n' || blanks[i] == '\r',
    ensures
        behind_mark(blanks + seq![other] + rest, mark) == Seq::<char>::empty(),
    decreases blanks.len(),
{
    let whole = blanks + seq![other] + rest;
    if blanks.len() == 0 {
        assert(whole[0] == other);
    } else {
        assert(whole[0] == blanks[0]);
        assert forall|i: int| 0 <= i < blanks.skip(1).len() implies (
        #[trigger] blanks.skip(1)[i]) == ' ' || blanks.skip(1)[i] == '\t' || blanks.skip(1)[i]
            == '\n' || blanks.skip(1)[i] == '\r' by {
            assert(blanks.skip(1)[i] == blanks[i + 1]);
        }
        law_no_mark_is_found_behind_anything_else(blanks.skip(1), other, mark, rest);
        assert(whole.skip(1) =~= blanks.skip(1) + seq![other] + rest);
    }
}

/// A member is a string, a colon and a value, and the members of an object are
/// separated by commas: the first one is handed out as it was read, with
/// whatever follows the comma read likewise.
pub proof fn law_members_are_read_one_by_one(
    text: Seq<char>,
    name: Seq<char>,
    value: Seq<char>,
    behind_name: Seq<char>,
    behind_value: Seq<char>,
)
    requires
        leading_string(text) == Some((name, behind_name)),
        leading_value(behind_mark(behind_name, ':')) == Some((value, behind_value)),
        behind_mark(behind_value, ',').len() < text.len(),
    ensures
        members_from(text).len() == 1 + members_from(behind_mark(behind_value, ',')).len(),
        members_from(text)[0] == (name, value),
        members_from(text).skip(1) == members_from(behind_mark(behind_value, ',')),
{
    assert(members_from(text).skip(1) =~= members_from(behind_mark(behind_value, ',')));
}

/// The elements of an array are separated by commas: the first one is handed
/// out as it was read, with whatever follows the comma read likewise.
pub proof fn law_elements_are_read_one_by_one(
    text: Seq<char>,
    value: Seq<char>,
    behind_value: Seq<char>,
)
    requires
        leading_value(text) == Some((value, behind_value)),
        behind_mark(behind_value, ',').len() < text.len(),
    ensures
        values_from(text).len() == 1 + values_from(behind_mark(behind_value, ',')).len(),
        values_from(text)[0] == value,
        values_from(text).skip(1) == values_from(behind_mark(behind_value, ',')),
{
    assert(values_from(text).skip(1) =~= values_from(behind_mark(behind_value, ',')));
}

/// Where no member or element can be read, there is none.
pub proof fn law_nothing_is_read_where_nothing_stands(text: Seq<char>)
    ensures
        leading_string(text) is None ==> members_from(text).len() == 0,
        leading_value(text) is None ==> values_from(text).len() == 0,
{
}

/// The elements of an array stand behind its bracket, and the members of an
/// object behind its brace.
pub proof fn law_what_is_read_stands_behind_the_bracket(text: Seq<char>)
    ensures
        array_items(text) is Some <==> is_array(text),
        is_array(text) ==> array_items(text)->0 == values_from(behind_mark(text, '[')),
        object_members(text) is Some <==> is_object(text),
        is_object(text) ==> object_members(text)->0 == members_from(behind_mark(text, '{')),
{
}

/// What was read as a list of strings is seen as that list, in order, and an
/// error as its message.
pub proof fn law_a_list_is_its_strings(r: Result<Vec<String>, String>)
    ensures
        r is Err ==> strings_result(r) is Err && strings_result(r)->Err_0 == r->Err_0@,
        r is Ok ==> {
            let list = r->Ok_0@;
            &&& strings_result(r) is Ok
            &&& strings_result(r)->Ok_0.len() == list.len()
            &&& forall|i: int|
                0 <= i < list.len() ==> #[trigger] strings_result(r)->Ok_0[i] == list[i]@
        },
{
}

} // verus!
