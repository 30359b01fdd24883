//! Counting and selecting records.
use vstd::prelude::*;
use crate::metadata::{Record, RfcMetadata};
use crate::store::records_of;
use crate::text::contains_text;

verus! {

/// How many of the records satisfy `p`.
pub open spec fn count(records: Seq<Record>, p: spec_fn(Record) -> bool) -> nat
    decreases records.len(),
{
    if records.len() == 0 {
        0
    } else {
        count(records.drop_last(), p) + if p(records.last()) {
            1nat
        } else {
            0nat
        }
    }
}

/// Counts over a set of records.
#[derive(Debug, Clone, Copy, PartialEq, Eq, Structural)]
pub struct Stats {
    /// How many records there are.
    pub total: usize,
    /// How many of them have a title.
    pub title: usize,
    /// How many of them have at least one team.
    pub teams: usize,
    /// How many of them have at least one tag.
    pub one_tag: usize,
}

/// Counts the records, and those with a title, with a team and with a tag.
pub fn stats(metadata: &Vec<RfcMetadata>) -> (s: Stats)
    ensures
        s.total == metadata@.len(),
        s.title == count(records_of(metadata@), |r: Record| r.title is Some),
        s.teams == count(records_of(metadata@), |r: Record| r.teams.len() > 0),
        s.one_tag == count(records_of(metadata@), |r: Record| r.tags.len() > 0),
{
    let ghost records = records_of(metadata@);
    let ghost titled = |r: Record| r.title is Some;
    let ghost teamed = |r: Record| r.teams.len() > 0;
    let ghost tagged = |r: Record| r.tags.len() > 0;
    let mut title: usize = 0;
    let mut teams: usize = 0;
    let mut one_tag: usize = 0;
    let mut i: usize = 0;
    while i < metadata.len()
        invariant
            i <= metadata.len(),
            records == records_of(metadata@),
            titled == (|r: Record| r.title is Some),
            teamed == (|r: Record| r.teams.len() > 0),
            tagged == (|r: Record| r.tags.len() > 0),
            title == count(records.take(i as int), titled),
            teams == count(records.take(i as int), teamed),
            one_tag == count(records.take(i as int), tagged),
            title <= i,
            teams <= i,
            one_tag <= i,
        decreases metadata.len() - i,
    {
        proof {
            let next = records.take(i + 1);
            assert(next.drop_last() == records.take(i as int));
        }
        if metadata[i].title.is_some() {
            title += 1;
        }
        if metadata[i].teams.len() > 0 {
            teams += 1;
        }
        if metadata[i].tags.len() > 0 {
            one_tag += 1;
        }
        i += 1;
    }
    assert(records.take(i as int) == records);
    Stats { total: metadata.len(), title, teams, one_tag }
}

/// Whether a record answers a query: every record answers the query without
/// a tag filter; with a tag, those that have the tag; with the filter for no
/// tag, those without tags.
pub open spec fn answers(record: Record, tag: Option<Option<Seq<char>>>) -> bool {
    match tag {
        None => true,
        Some(Some(t)) => record.tags.contains(t),
        Some(None) => record.tags.len() == 0,
    }
}

/// The numbers of the records that answer a query, in the records' order.
pub open spec fn answering(records: Seq<Record>, tag: Option<Option<Seq<char>>>) -> Seq<u64>
    decreases records.len(),
{
    if records.len() == 0 {
        Seq::empty()
    } else if answers(records.last(), tag) {
        answering(records.drop_last(), tag).push(records.last().number)
    } else {
        answering(records.drop_last(), tag)
    }
}

/// Whether the numbers stand in ascending order.
pub open spec fn ascending(numbers: Seq<u64>) -> bool {
    forall|i: int, j: int| 0 <= i <= j < numbers.len() ==> numbers[i] <= numbers[j]
}

/// The tag filter of a query, as plain mathematical values.
pub open spec fn filter_view(tag: Option<Option<String>>) -> Option<Option<Seq<char>>> {
    match tag {
        None => None,
        Some(None) => Some(None),
        Some(Some(t)) => Some(Some(t@)),
    }
}

/// `<[u64]>::sort`: afterwards the numbers stand in ascending order, and they
/// are the numbers that were there, each as often as before.
#[verifier::external_body]
fn sort_numbers(numbers: &mut Vec<u64>)
    ensures
        ascending(final(numbers)@),
        final(numbers)@.to_multiset() == old(numbers)@.to_multiset(),
{
    numbers.sort();
}

/// The numbers of the records that answer a query, in ascending order.
///
/// Without a tag filter every record answers; with a tag, the records that
/// have it; with the filter for no tag, the records without tags.
pub fn query(metadata: &Vec<RfcMetadata>, tag: &Option<Option<String>>) -> (numbers: Vec<u64>)
    ensures
        ascending(numbers@),
        numbers@.to_multiset() == answering(records_of(metadata@), filter_view(*tag)).to_multiset(),
{
    let ghost records = records_of(metadata@);
    let ghost filter = filter_view(*tag);
    let mut numbers: Vec<u64> = Vec::new();
    let mut i: usize = 0;
    while i < metadata.len()
        invariant
            i <= metadata.len(),
            records == records_of(metadata@),
            filter == filter_view(*tag),
            numbers@ == answering(records.take(i as int), filter),
        decreases metadata.len() - i,
    {
        proof {
            let next = records.take(i + 1);
            assert(next.drop_last() == records.take(i as int));
        }
        let wanted = match tag {
            None => true,
            Some(Some(t)) => contains_text(&metadata[i].tags, t),
            Some(None) => metadata[i].tags.len() == 0,
        };
        if wanted {
            numbers.push(metadata[i].number);
        }
        i += 1;
    }
    assert(records.take(i as int) == records);
    sort_numbers(&mut numbers);
    numbers
}

} // verus!
