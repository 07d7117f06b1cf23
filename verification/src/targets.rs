//! The destination list: chats separated by commas, each with an optional topic
//! behind a colon.

use vstd::prelude::*;
use vstd::string::*;

use crate::model::{Target, TargetView};
use crate::text;

verus! {

/// The destination written as `key`: the chat, and the topic if there is a
/// colon.
pub open spec fn target_of(key: Seq<char>) -> TargetView {
    let colon = text::position(key, ':');
    if colon < key.len() {
        TargetView { key, chat_id: key.take(colon), thread_id: Some(key.skip(colon + 1)) }
    } else {
        TargetView { key, chat_id: key, thread_id: None }
    }
}

/// How the destinations of the list `raw` are written: what stands between its
/// commas, without white space around it, and without what is then empty.
pub open spec fn keys_in(raw: Seq<char>) -> Seq<Seq<char>> {
    text::pieces(raw, ',').map_values(|piece: Seq<char>| text::trimmed(piece)).filter(
        |key: Seq<char>| key.len() > 0,
    )
}

/// The destinations of the list `raw`.
pub open spec fn targets_in(raw: Seq<char>) -> Seq<TargetView> {
    keys_in(raw).map_values(|key: Seq<char>| target_of(key))
}

/// The destination written as `key`.
pub fn target(key: &str) -> (r: Target)
    ensures
        r@ == target_of(key@),
{
    let list = text::chars(key);
    let colon: usize = text::find(&list, ':');
    if colon < list.len() {
        let chat_id = text::slice(&list, 0, colon);
        let thread_id = text::slice(&list, colon + 1, list.len());
        Target { key: key.to_string(), chat_id, thread_id: Some(thread_id) }
    } else {
        Target { key: key.to_string(), chat_id: key.to_string(), thread_id: None }
    }
}

/// The destinations of the list `raw`, in its order.
pub fn parse_targets(raw: &str) -> (r: Vec<Target>)
    ensures
        r.deep_view() == targets_in(raw@),
{
    let pieces = text::split(raw, ',');
    let ghost all = pieces.deep_view().map_values(|piece: Seq<char>| text::trimmed(piece));
    let ghost nonempty = |key: Seq<char>| key.len() > 0;
    let ghost f = |key: Seq<char>| target_of(key);
    let mut r: Vec<Target> = Vec::new();
    let mut i: usize = 0;
    assert(r.deep_view() =~= all.take(0).filter(nonempty).map_values(f)) by {
        reveal(Seq::filter);
    }
    while i < pieces.len()
        invariant
            i <= pieces@.len(),
            all == pieces.deep_view().map_values(|piece: Seq<char>| text::trimmed(piece)),
            nonempty == (|key: Seq<char>| key.len() > 0),
            f == (|key: Seq<char>| target_of(key)),
            r.deep_view() == all.take(i as int).filter(nonempty).map_values(f),
        decreases pieces@.len() - i,
    {
        let ghost before = r.deep_view();
        let key = text::trim(&pieces[i]);
        proof {
            assert(key@ == all[i as int]);
            assert(all.take(i + 1) =~= all.take(i as int).push(all[i as int]));
            all.take(i as int).lemma_filter_push(all[i as int], nonempty);
        }
        if !key.as_str().is_empty() {
            r.push(target(&key));
            assert(r.deep_view() =~= before.push(target_of(key@)));
            assert(r.deep_view() =~= all.take(i + 1).filter(nonempty).map_values(f));
        }
        i = i + 1;
    }
    assert(all.take(i as int) =~= all);
    r
}

/// The destinations of a list that is set to `raw`, or not set.
pub open spec fn subscribed(raw: Option<Seq<char>>) -> Seq<TargetView> {
    match raw {
        Some(raw) => targets_in(raw),
        None => seq![],
    }
}

/// The destinations a feed is subscribed to, given what its list is set to. A
/// list that is not set means that the feed is not subscribed to.
pub fn subscribers(raw: Option<String>) -> (r: Vec<Target>)
    ensures
        r.deep_view() == match raw.deep_view() {
            Some(raw) => targets_in(raw),
            None => seq![],
        },
        r.deep_view() == subscribed(raw.deep_view()),
{
    match raw {
        Some(raw) => parse_targets(&raw),
        None => {
            let r: Vec<Target> = Vec::new();
            assert(r.deep_view() =~= seq![]);
            r
        },
    }
}

/// A destination is written as its chat, and its topic behind a colon if it has
/// one. The chat holds no colon.
pub proof fn law_a_key_names_its_chat_and_topic(key: Seq<char>)
    ensures
        target_of(key).key == key,
        key == match target_of(key).thread_id {
            Some(thread_id) => target_of(key).chat_id + ":"@ + thread_id,
            None => target_of(key).chat_id,
        },
        !target_of(key).chat_id.contains(':'),
{
    text::lemma_position(key, ':');
    reveal_strlit(":");
    let colon = text::position(key, ':');
    if colon < key.len() {
        assert(key =~= key.take(colon) + ":"@ + key.skip(colon + 1));
    }
}

/// No destination is written as nothing, with white space around it, or with a
/// comma.
pub proof fn law_keys_are_clean(raw: Seq<char>)
    ensures
        forall|i: int|
            0 <= i < keys_in(raw).len() ==> {
                let key = #[trigger] keys_in(raw)[i];
                &&& key.len() > 0
                &&& text::is_trimmed(key)
                &&& !key.contains(',')
            },
{
    let pieces = text::pieces(raw, ',');
    let trimmed = pieces.map_values(|piece: Seq<char>| text::trimmed(piece));
    let nonempty = |key: Seq<char>| key.len() > 0;
    let keys = keys_in(raw);
    assert forall|i: int| 0 <= i < keys.len() implies {
        let key = #[trigger] keys[i];
        &&& key.len() > 0
        &&& text::is_trimmed(key)
        &&& !key.contains(',')
    } by {
        trimmed.lemma_filter_pred(nonempty, i);
        assert(keys.contains(keys[i]));
        trimmed.lemma_filter_contains_rev(nonempty, keys[i]);
        let j = choose|j: int| 0 <= j < trimmed.len() && trimmed[j] == keys[i];
        text::lemma_trimmed(pieces[j]);
        text::lemma_pieces_hold_no_separator(raw, ',');
        text::lemma_trimmed_is_part(pieces[j]);
        if keys[i].contains(',') {
            let k = choose|k: int| 0 <= k < keys[i].len() && keys[i][k] == ',';
            assert(pieces[j].contains(keys[i][k]));
        }
    }
}

/// A destination that is written on its own is read as itself.
pub proof fn law_a_key_is_read_as_itself(key: Seq<char>)
    requires
        key.len() > 0,
        text::is_trimmed(key),
        !key.contains(','),
    ensures
        targets_in(key) == seq![target_of(key)],
{
    text::lemma_position(key, ',');
    if text::position(key, ',') < key.len() {
        assert(key.contains(key[text::position(key, ',')]));
    }
    text::lemma_trimmed(key);
    let trimmed = text::pieces(key, ',').map_values(|piece: Seq<char>| text::trimmed(piece));
    let nonempty = |key: Seq<char>| key.len() > 0;
    assert(trimmed =~= Seq::<Seq<char>>::empty().push(key));
    Seq::<Seq<char>>::empty().lemma_filter_push(key, nonempty);
    assert(Seq::<Seq<char>>::empty().filter(nonempty) =~= Seq::<Seq<char>>::empty()) by {
        reveal(Seq::filter);
    }
    assert(keys_in(key) =~= seq![key]);
    assert(targets_in(key) =~= seq![target_of(key)]);
}

/// Lists joined with a comma are read as the one and then the other.
pub proof fn law_a_joined_list_is_read_as_its_parts(a: Seq<char>, b: Seq<char>)
    ensures
        targets_in(a + ","@ + b) == targets_in(a) + targets_in(b),
{
    reveal_strlit(",");
    assert(","@ =~= seq![',']);
    let trim = |piece: Seq<char>| text::trimmed(piece);
    let nonempty = |key: Seq<char>| key.len() > 0;
    let one = text::pieces(a, ',').map_values(trim);
    let two = text::pieces(b, ',').map_values(trim);
    text::lemma_pieces_of_joined(a, b, ',');
    assert((text::pieces(a, ',') + text::pieces(b, ',')).map_values(trim) =~= one + two);
    Seq::filter_distributes_over_add(one, two, nonempty);
    assert(targets_in(a + ","@ + b) =~= targets_in(a) + targets_in(b));
}

/// White space around a destination does not count, and white space alone is no
/// destination.
pub proof fn law_white_space_around_a_destination_does_not_count(
    leading: Seq<char>,
    key: Seq<char>,
    trailing: Seq<char>,
)
    requires
        text::blank(leading),
        text::blank(trailing),
        text::is_trimmed(key),
        !key.contains(','),
    ensures
        key.len() > 0 ==> targets_in(leading + key + trailing) == seq![target_of(key)],
        key.len() == 0 ==> targets_in(leading + key + trailing).len() == 0,
{
    let raw = leading + key + trailing;
    let trim = |piece: Seq<char>| text::trimmed(piece);
    let nonempty = |key: Seq<char>| key.len() > 0;
    assert(!raw.contains(',')) by {
        if raw.contains(',') {
            let i = choose|i: int| 0 <= i < raw.len() && raw[i] == ',';
            if i < leading.len() {
                assert(text::is_space(leading[i]));
            } else if i < leading.len() + key.len() {
                assert(key.contains(key[i - leading.len()]));
            } else {
                assert(text::is_space(trailing[i - leading.len() - key.len()]));
            }
        }
    }
    text::law_text_without_a_separator_is_one_piece(raw, ',');
    text::law_trimming_takes_off_white_space(leading, key, trailing);
    assert(text::pieces(raw, ',').map_values(trim) =~= Seq::<Seq<char>>::empty().push(key));
    Seq::<Seq<char>>::empty().lemma_filter_push(key, nonempty);
    assert(Seq::<Seq<char>>::empty().filter(nonempty) =~= Seq::<Seq<char>>::empty()) by {
        reveal(Seq::filter);
    }
    if key.len() > 0 {
        assert(keys_in(raw) =~= seq![key]);
        assert(targets_in(raw) =~= seq![target_of(key)]);
    }
}

/// A list that is not set has the destinations of an empty one: none. One that
/// is set has those that are written there.
pub proof fn law_a_list_that_is_not_set_is_empty(raw: Seq<char>)
    ensures
        subscribed(None).len() == 0,
        subscribed(Some(Seq::<char>::empty())).len() == 0,
        subscribed(Some(raw)) == targets_in(raw),
{
    let nothing = Seq::<char>::empty();
    assert(text::blank(nothing));
    law_white_space_around_a_destination_does_not_count(nothing, nothing, nothing);
    assert(nothing + nothing + nothing =~= nothing);
}

} // verus!
