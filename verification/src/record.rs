//! The delivery record of one destination: the ids it has been sent, oldest
//! first, and how it is stored.

use vstd::prelude::*;
use vstd::string::*;

use crate::json;
use crate::text;

verus! {

/// How many ids a claim leaves in a record. The feed only ever shows the last
/// ten releases, so nothing older can return.
pub const SEEN_CAP: usize = 50;

/// The last `count` ids of `record`, or all if there are no more.
pub open spec fn latest(record: Seq<Seq<char>>, count: int) -> Seq<Seq<char>> {
    if record.len() > count {
        record.skip(record.len() - count)
    } else {
        record
    }
}

/// The record after `id` has been claimed: at its end, and the oldest ids gone
/// if it has grown past [`SEEN_CAP`].
pub open spec fn claimed(record: Seq<Seq<char>>, id: Seq<char>) -> Seq<Seq<char>> {
    latest(record.push(id), SEEN_CAP as int)
}

/// The record after `ids` have been claimed, one after the other.
pub open spec fn claimed_all(record: Seq<Seq<char>>, ids: Seq<Seq<char>>) -> Seq<Seq<char>>
    decreases ids.len(),
{
    if ids.len() == 0 {
        record
    } else {
        claimed(claimed_all(record, ids.drop_last()), ids.last())
    }
}

/// What a stored record reads as: `Ok(None)` where nothing is stored.
pub open spec fn stored_record(raw: Option<Seq<char>>) -> Result<
    Option<Seq<Seq<char>>>,
    Seq<char>,
> {
    match raw {
        Some(raw) => match json::string_list(raw) {
            Ok(tags) => Ok(Some(tags)),
            Err(message) => Err(message),
        },
        None => Ok(None),
    }
}

/// The views inside a record that was read.
pub open spec fn record_view(r: Result<Option<Vec<String>>, String>) -> Result<
    Option<Seq<Seq<char>>>,
    Seq<char>,
> {
    match r {
        Ok(tags) => Ok(tags.deep_view()),
        Err(message) => Err(message@),
    }
}

/// The stored form of a record. Whatever the ids are, reading it back gives the
/// same record.
pub fn encode_record(tags: &[String]) -> (r: String)
    ensures
        r@ == json::list_text(tags.deep_view()),
        json::reads_as(r@, tags.deep_view()),
        stored_record(Some(r@)) == Ok::<Option<Seq<Seq<char>>>, Seq<char>>(Some(tags.deep_view())),
{
    match json::write_strings(tags) {
        Some(text) => text,
        None => "[]".to_string(),
    }
}

/// Reads the stored form of a record back.
pub fn decode_record(raw: &str) -> (r: Result<Vec<String>, String>)
    ensures
        json::strings_result(r) == json::string_list(raw@),
{
    json::read_strings(raw)
}

/// What was found under a record's key. Nothing stored means that the
/// destination has no record yet, which is different from a read that failed.
pub fn read_record(raw: Option<String>) -> (r: Result<Option<Vec<String>>, String>)
    ensures
        record_view(r) == stored_record(raw.deep_view()),
{
    match raw {
        Some(raw) => match decode_record(&raw) {
            Ok(tags) => Ok(Some(tags)),
            Err(message) => Err(message),
        },
        None => Ok(None),
    }
}

/// Claims `id` in `record`.
pub fn claim(record: &mut Vec<String>, id: &str)
    ensures
        final(record).deep_view() == claimed(old(record).deep_view(), id@),
{
    let ghost before = record.deep_view();
    record.push(id.to_string());
    assert(record.deep_view() =~= before.push(id@));
    let ghost grown = record.deep_view();
    if record.len() > SEEN_CAP {
        let oldest: usize = record.len() - SEEN_CAP;
        let kept = record.split_off(oldest);
        assert(kept.deep_view() =~= grown.skip(oldest as int));
        *record = kept;
    }
}

/// Whether `record` holds `id`.
pub fn recorded(record: &Vec<String>, id: &str) -> (r: bool)
    ensures
        r == record.deep_view().contains(id@),
{
    let mut i: usize = 0;
    while i < record.len()
        invariant
            i <= record@.len(),
            forall|j: int| 0 <= j < i ==> record.deep_view()[j] != id@,
        decreases record@.len() - i,
    {
        if text::same(&record[i], id) {
            assert(record.deep_view()[i as int] == id@);
            return true;
        }
        i = i + 1;
    }
    false
}

/// A claim stands at the end of the record, which never holds more than
/// [`SEEN_CAP`] ids afterwards, and loses none but its oldest.
pub proof fn law_a_claim_is_recorded(record: Seq<Seq<char>>, id: Seq<char>)
    ensures
        claimed(record, id).last() == id,
        claimed(record, id).contains(id),
        0 < claimed(record, id).len() <= SEEN_CAP,
        claimed(record, id).is_suffix_of(record.push(id)),
        record.len() < SEEN_CAP ==> claimed(record, id) == record.push(id),
{
    let after = claimed(record, id);
    assert(after[after.len() - 1] == id);
    assert(after =~= record.push(id).skip(record.push(id).len() - after.len()));
}

/// Giving a claim back takes the id out again and leaves what was there, but
/// for the oldest id of a record that was full.
pub proof fn law_a_claim_can_be_given_back(record: Seq<Seq<char>>, id: Seq<char>)
    ensures
        record.len() < SEEN_CAP ==> claimed(record, id).drop_last() == record,
        claimed(record, id).drop_last().is_suffix_of(record),
        !record.contains(id) ==> !claimed(record, id).drop_last().contains(id),
{
    let left = claimed(record, id).drop_last();
    assert(left =~= record.skip(record.len() - left.len()));
    if left.contains(id) {
        let i = choose|i: int| 0 <= i < left.len() && left[i] == id;
        assert(record[i + record.len() - left.len()] == id);
    }
}

/// Claims gather at the end of the record, in order; only its oldest ids go.
pub proof fn law_claims_gather(record: Seq<Seq<char>>, ids: Seq<Seq<char>>)
    requires
        ids.len() > 0,
    ensures
        claimed_all(record, ids) == latest(record + ids, SEEN_CAP as int),
    decreases ids.len(),
{
    let front = ids.drop_last();
    if front.len() == 0 {
        assert(claimed_all(record, front) == record);
        assert(record.push(ids.last()) =~= record + ids);
    } else {
        law_claims_gather(record, front);
        let before = claimed_all(record, front);
        assert(record + ids =~= (record + front).push(ids.last()));
        assert(latest(before.push(ids.last()), SEEN_CAP as int) =~= latest(
            record + ids,
            SEEN_CAP as int,
        ));
    }
}

/// A claim outlasts as many others as the record has room for.
pub proof fn law_a_claim_outlasts_others(
    record: Seq<Seq<char>>,
    id: Seq<char>,
    others: Seq<Seq<char>>,
)
    requires
        others.len() < SEEN_CAP,
    ensures
        claimed_all(claimed(record, id), others).contains(id),
{
    let before = claimed(record, id);
    let after = claimed_all(before, others);
    law_a_claim_is_recorded(record, id);
    if others.len() > 0 {
        law_claims_gather(before, others);
        assert((before + others)[before.len() - 1] == id);
        assert(after[after.len() - 1 - others.len()] == id);
    }
}

/// A claim puts the id at the end and keeps all of the record it can: the last
/// forty-nine ids of it, or all where there are fewer.
pub proof fn law_a_claim_keeps_the_last_of_the_record(record: Seq<Seq<char>>, id: Seq<char>)
    ensures
        record.len() <= 49 ==> claimed(record, id) == record + seq![id],
        record.len() > 49 ==> claimed(record, id) == record.skip(record.len() - 49) + seq![id],
{
    if record.len() <= 49 {
        assert(claimed(record, id) =~= record + seq![id]);
    } else {
        assert(claimed(record, id) =~= record.skip(record.len() - 49) + seq![id]);
    }
}

/// Where nothing is stored there is no record, which is no error; what is
/// stored is the list of strings it reads as, or the error of reading it.
pub proof fn law_a_stored_record_is_what_it_reads_as(
    raw: Seq<char>,
    tags: Seq<Seq<char>>,
    message: Seq<char>,
)
    ensures
        stored_record(None) is Ok && stored_record(None)->Ok_0 is None,
        json::string_list(raw) is Ok && json::string_list(raw)->Ok_0 == tags ==> stored_record(
            Some(raw),
        ) is Ok && stored_record(Some(raw))->Ok_0 == Some(tags),
        json::string_list(raw) is Err && json::string_list(raw)->Err_0 == message
            ==> stored_record(Some(raw)) is Err && stored_record(Some(raw))->Err_0 == message,
{
}

/// A record that was read is seen as the list of its ids, in order, and an error
/// as its message.
pub proof fn law_a_record_is_its_ids(r: Result<Option<Vec<String>>, String>)
    ensures
        r is Err ==> record_view(r) is Err && record_view(r)->Err_0 == r->Err_0@,
        r is Ok && r->Ok_0 is None ==> record_view(r) is Ok && record_view(r)->Ok_0 is None,
        r is Ok && r->Ok_0 is Some ==> {
            let tags = r->Ok_0->0@;
            &&& record_view(r) is Ok
            &&& record_view(r)->Ok_0 is Some
            &&& record_view(r)->Ok_0->0.len() == tags.len()
            &&& forall|i: int|
                0 <= i < tags.len() ==> #[trigger] record_view(r)->Ok_0->0[i] == tags[i]@
        },
{
}

} // verus!
