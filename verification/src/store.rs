//! The metadata store: what is kept under each document's number, and the
//! dictionary's lists beside it.
use vstd::prelude::*;
use crate::errors::Error;
use crate::metadata::{
    known_tags, lists_view, Record, RfcMetadata, TagMetadata, Team, TeamTags, METADATA_VERSION,
};
use crate::numbers::{
    decimal, lemma_parse_of_decimal, padded_decimal, parse_digits, parsed_u64, zero_padded,
};
use crate::text::{
    append_chars, chars_of, find_char, index_of, lemma_index_of, starts_with, string_of, texts,
};

verus! {

/// What the store holds under one number.
#[derive(Debug)]
pub enum Stored {
    /// Content from which not even a schema version can be read.
    Unreadable,
    /// Content with the given schema version, whose fields were not read or
    /// cannot be read.
    Version(u64),
    /// A record.
    Record(RfcMetadata),
}

/// What the store holds under one number, as plain mathematical values.
pub enum Content {
    Unreadable,
    Version(u64),
    Record(Record),
}

impl View for Stored {
    type V = Content;

    open spec fn view(&self) -> Content {
        match self {
            Stored::Unreadable => Content::Unreadable,
            Stored::Version(v) => Content::Version(*v),
            Stored::Record(r) => Content::Record(r@),
        }
    }
}

impl Clone for Stored {
    fn clone(&self) -> (r: Stored)
        ensures
            r@ == self@,
    {
        match self {
            Stored::Unreadable => Stored::Unreadable,
            Stored::Version(v) => Stored::Version(*v),
            Stored::Record(r) => Stored::Record(r.clone()),
        }
    }
}

/// One entry of the store.
#[derive(Debug)]
pub struct StoredFile {
    pub number: u64,
    pub content: Stored,
}

/// One entry of the store, as plain mathematical values.
pub struct Entry {
    pub number: u64,
    pub content: Content,
}

impl View for StoredFile {
    type V = Entry;

    open spec fn view(&self) -> Entry {
        Entry { number: self.number, content: self.content@ }
    }
}

/// The entries of a list of stored files.
pub open spec fn entries_of(files: Seq<StoredFile>) -> Seq<Entry> {
    files.map_values(|f: StoredFile| f@)
}

/// Whether no two entries have the same number.
pub open spec fn distinct_numbers(entries: Seq<Entry>) -> bool {
    forall|i: int, j: int|
        0 <= i < entries.len() && 0 <= j < entries.len() && i != j ==> (#[trigger] entries[i]).number
            != (#[trigger] entries[j]).number
}

/// Whether content can stand under the number: a record must carry the
/// number that it is stored under.
pub open spec fn fits(number: u64, content: Content) -> bool {
    content matches Content::Record(record) ==> record.number == number
}

/// Whether each record among the entries carries the number that it is
/// stored under.
pub open spec fn own_numbers(entries: Seq<Entry>) -> bool {
    forall|i: int|
        0 <= i < entries.len() ==> fits((#[trigger] entries[i]).number, entries[i].content)
}

/// The content as the store admits it under the number: a record that
/// carries another number counts as unreadable.
pub open spec fn admitted(number: u64, content: Content) -> Content {
    if fits(number, content) {
        content
    } else {
        Content::Unreadable
    }
}

/// Where the number first occurs among the entries; their length if it
/// does not occur.
pub open spec fn first_at(entries: Seq<Entry>, number: u64) -> nat
    decreases entries.len(),
{
    if entries.len() == 0 {
        0
    } else if entries[0].number == number {
        0
    } else {
        1 + first_at(entries.drop_first(), number)
    }
}

/// Whether something is stored under the number.
pub open spec fn has_number(entries: Seq<Entry>, number: u64) -> bool {
    first_at(entries, number) < entries.len()
}

/// What is stored under the number, if anything is.
pub open spec fn content_of(entries: Seq<Entry>, number: u64) -> Option<Content> {
    if has_number(entries, number) {
        Some(entries[first_at(entries, number) as int].content)
    } else {
        None
    }
}

/// The entries after `content` has been stored under `number`: in the place
/// of what was stored under it, or at the end if nothing was.
pub open spec fn put(entries: Seq<Entry>, number: u64, content: Content) -> Seq<Entry> {
    if has_number(entries, number) {
        entries.update(first_at(entries, number) as int, Entry { number, content })
    } else {
        entries.push(Entry { number, content })
    }
}

/// The entries without the first under `number`, which is the only one where
/// no two entries have the same number.
pub open spec fn without(entries: Seq<Entry>, number: u64) -> Seq<Entry> {
    if has_number(entries, number) {
        entries.remove(first_at(entries, number) as int)
    } else {
        entries
    }
}

/// The first occurrence lies among the entries or at their end, it has the
/// number, and no entry before it has.
pub proof fn lemma_first_at(entries: Seq<Entry>, number: u64)
    ensures
        first_at(entries, number) <= entries.len(),
        has_number(entries, number) ==> entries[first_at(entries, number) as int].number == number,
        forall|i: int| 0 <= i < first_at(entries, number) ==> entries[i].number != number,
    decreases entries.len(),
{
    if entries.len() > 0 && entries[0].number != number {
        lemma_first_at(entries.drop_first(), number);
        assert forall|i: int| 0 <= i < first_at(entries, number) implies entries[i].number
            != number by {
            if i > 0 {
                assert(entries[i] == entries.drop_first()[i - 1]);
            }
        }
    }
}

/// A place `k` at which the number occurs, or the end, with no occurrence
/// before it, is the first occurrence.
pub proof fn lemma_first_at_is(entries: Seq<Entry>, number: u64, k: int)
    requires
        0 <= k <= entries.len(),
        forall|i: int| 0 <= i < k ==> entries[i].number != number,
        k < entries.len() ==> entries[k].number == number,
    ensures
        first_at(entries, number) == k,
{
    lemma_first_at(entries, number);
}

/// After something was stored under a number, it is what is found there;
/// what is found under any other number is as before.
pub proof fn lemma_put(entries: Seq<Entry>, number: u64, content: Content)
    ensures
        content_of(put(entries, number, content), number) == Some(content),
        forall|other: u64|
            other != number ==> #[trigger] content_of(put(entries, number, content), other)
                == content_of(entries, other),
        distinct_numbers(entries) ==> distinct_numbers(put(entries, number, content)),
        put(put(entries, number, content), number, content) == put(entries, number, content),
{
    let after = put(entries, number, content);
    let k = first_at(entries, number) as int;
    lemma_first_at(entries, number);
    lemma_first_at_is(after, number, k);
    assert forall|other: u64| other != number implies #[trigger] content_of(after, other)
        == content_of(entries, other) by {
        let j = first_at(entries, other) as int;
        lemma_first_at(entries, other);
        lemma_first_at_is(after, other, if j < entries.len() {
            j
        } else {
            after.len() as int
        });
    }
    assert(put(after, number, content) =~= after);
    if distinct_numbers(entries) {
        assert forall|i: int, j: int|
            0 <= i < after.len() && 0 <= j < after.len() && i != j implies (#[trigger] after[i]).number
            != (#[trigger] after[j]).number by {
            if k < entries.len() {
                assert(after[i].number == entries[i].number);
                assert(after[j].number == entries[j].number);
            } else if i < entries.len() && j < entries.len() {
                assert(after[i] == entries[i]);
                assert(after[j] == entries[j]);
            }
        }
    }
}

/// Storing fitting content, or removing content, leaves each record under
/// its own number.
pub proof fn lemma_own_numbers(entries: Seq<Entry>, number: u64, content: Content)
    requires
        own_numbers(entries),
    ensures
        fits(number, content) ==> own_numbers(put(entries, number, content)),
        own_numbers(without(entries, number)),
        forall|other: u64|
            #[trigger] content_of(entries, other) is Some ==> fits(
                other,
                content_of(entries, other)->0,
            ),
{
    let k = first_at(entries, number) as int;
    lemma_first_at(entries, number);
    if fits(number, content) {
        let after = put(entries, number, content);
        assert forall|i: int| 0 <= i < after.len() implies fits(
            (#[trigger] after[i]).number,
            after[i].content,
        ) by {
            if i != k {
                assert(after[i] == entries[i]);
            }
        }
    }
    let less = without(entries, number);
    assert forall|i: int| 0 <= i < less.len() implies fits(
        (#[trigger] less[i]).number,
        less[i].content,
    ) by {
        if k < entries.len() && i >= k {
            assert(less[i] == entries[i + 1]);
        } else {
            assert(less[i] == entries[i]);
        }
    }
    assert forall|other: u64| #[trigger] content_of(entries, other) is Some implies fits(
        other,
        content_of(entries, other)->0,
    ) by {
        lemma_first_at(entries, other);
        let j = first_at(entries, other) as int;
        assert(fits(entries[j].number, entries[j].content));
    }
}

/// After what was stored under a number was removed, nothing is found there;
/// what is found under any other number is as before.
pub proof fn lemma_without(entries: Seq<Entry>, number: u64)
    requires
        distinct_numbers(entries),
    ensures
        !has_number(without(entries, number), number),
        forall|other: u64|
            other != number ==> #[trigger] content_of(without(entries, number), other)
                == content_of(entries, other),
        distinct_numbers(without(entries, number)),
{
    let after = without(entries, number);
    let k = first_at(entries, number) as int;
    lemma_first_at(entries, number);
    if k < entries.len() {
        assert forall|i: int| 0 <= i < after.len() implies (#[trigger] after[i]).number
            != number by {
            if i < k {
                assert(after[i] == entries[i]);
            } else {
                assert(after[i] == entries[i + 1]);
            }
        }
        lemma_first_at_is(after, number, after.len() as int);
        assert forall|other: u64| other != number implies #[trigger] content_of(after, other)
            == content_of(entries, other) by {
            let j = first_at(entries, other) as int;
            lemma_first_at(entries, other);
            let j2 = if j < k {
                j
            } else {
                j - 1
            };
            assert forall|i: int| 0 <= i < j2 implies after[i].number != other by {
                if i < k {
                    assert(after[i] == entries[i]);
                } else {
                    assert(after[i] == entries[i + 1]);
                }
            }
            lemma_first_at_is(after, other, j2);
        }
        assert forall|i: int, j: int|
            0 <= i < after.len() && 0 <= j < after.len() && i != j implies (#[trigger] after[i]).number
            != (#[trigger] after[j]).number by {
            let i0 = if i < k {
                i
            } else {
                i + 1
            };
            let j0 = if j < k {
                j
            } else {
                j + 1
            };
            assert(after[i] == entries[i0]);
            assert(after[j] == entries[j0]);
        }
    }
}

/// The dictionary's lists as they are stored.
#[derive(Debug)]
pub enum StoredTags {
    /// No lists are stored.
    Missing,
    /// Content that cannot be read as lists.
    Unreadable,
    /// The lists.
    Lists(Vec<TeamTags>),
}

/// The dictionary's lists as they are stored, as plain mathematical values.
pub enum TagsContent {
    Missing,
    Unreadable,
    Lists(Seq<(Team, Seq<Seq<char>>)>),
}

impl View for StoredTags {
    type V = TagsContent;

    open spec fn view(&self) -> TagsContent {
        match self {
            StoredTags::Missing => TagsContent::Missing,
            StoredTags::Unreadable => TagsContent::Unreadable,
            StoredTags::Lists(lists) => TagsContent::Lists(lists_view(lists@)),
        }
    }
}

/// What reading stored content gives. Content with a newer schema version is
/// refused for its version, whatever else it holds; other content must hold
/// a record.
pub open spec fn read(content: Content) -> Result<Record, Error> {
    match content {
        Content::Unreadable => Err(Error::Serialization),
        Content::Version(version) => if version > METADATA_VERSION {
            Err(Error::UnsupportedMetadataVersion(version))
        } else {
            Err(Error::Serialization)
        },
        Content::Record(record) => if record.version > METADATA_VERSION {
            Err(Error::UnsupportedMetadataVersion(record.version))
        } else {
            Ok(record)
        },
    }
}

/// What opening a number gives: `Error::FileNotFound` if nothing is stored
/// under it, else what reading the content gives.
pub open spec fn opened(entries: Seq<Entry>, number: u64) -> Result<Record, Error> {
    match content_of(entries, number) {
        Some(content) => read(content),
        None => Err(Error::FileNotFound),
    }
}

/// What reading all entries in order gives: the records, or the error of the
/// first entry that cannot be read.
pub open spec fn all_read(entries: Seq<Entry>) -> Result<Seq<Record>, Error>
    decreases entries.len(),
{
    if entries.len() == 0 {
        Ok(Seq::empty())
    } else {
        match all_read(entries.drop_last()) {
            Err(e) => Err(e),
            Ok(records) => match read(entries.last().content) {
                Ok(record) => Ok(records.push(record)),
                Err(e) => Err(e),
            },
        }
    }
}

/// Where reading the first `k` entries fails, reading all of them fails in
/// the same way.
pub proof fn lemma_all_read_fails(entries: Seq<Entry>, k: int)
    requires
        0 <= k <= entries.len(),
        all_read(entries.take(k)) is Err,
    ensures
        all_read(entries) == all_read(entries.take(k)),
    decreases entries.len() - k,
{
    if k < entries.len() {
        assert(entries.take(k + 1).drop_last() == entries.take(k));
        lemma_all_read_fails(entries, k + 1);
    } else {
        assert(entries.take(k) == entries);
    }
}

/// A record, or the error in its place, as plain mathematical values.
pub open spec fn record_result(r: Result<RfcMetadata, Error>) -> Result<Record, Error> {
    match r {
        Ok(record) => Ok(record@),
        Err(e) => Err(e),
    }
}

/// The records of a list, as plain mathematical values.
pub open spec fn records_of(list: Seq<RfcMetadata>) -> Seq<Record> {
    list.map_values(|r: RfcMetadata| r@)
}

/// The numbers of the entries, in order.
pub open spec fn numbers_of(entries: Seq<Entry>) -> Seq<u64> {
    entries.map_values(|e: Entry| e.number)
}

/// The metadata store: at most one entry for each number, in the order in
/// which the numbers were first stored, and the dictionary's lists.
pub struct MetadataStore {
    files: Vec<StoredFile>,
    tags: StoredTags,
}

impl MetadataStore {
    /// The store is well formed: no two of its entries have the same number,
    /// and each record in it carries the number that it is stored under.
    pub closed spec fn wf(&self) -> bool {
        distinct_numbers(entries_of(self.files@)) && own_numbers(entries_of(self.files@))
    }

    /// The entries of the store, in order.
    pub closed spec fn entries(&self) -> Seq<Entry> {
        entries_of(self.files@)
    }

    /// The dictionary's lists as they are stored.
    pub closed spec fn stored_tags(&self) -> StoredTags {
        self.tags
    }

    /// In a well-formed store no two entries have the same number, and each
    /// record carries the number that it is stored under.
    pub proof fn lemma_wf(&self)
        requires
            self.wf(),
        ensures
            distinct_numbers(self.entries()),
            own_numbers(self.entries()),
    {
    }

    /// An empty store.
    pub fn new() -> (store: MetadataStore)
        ensures
            store.wf(),
            store.entries().len() == 0,
            store.stored_tags() is Missing,
    {
        MetadataStore { files: Vec::new(), tags: StoredTags::Missing }
    }

    /// Where the number is stored.
    fn position(&self, number: u64) -> (k: usize)
        ensures
            k == first_at(self.entries(), number),
            k <= self.files@.len(),
    {
        let ghost entries = self.entries();
        let mut k: usize = 0;
        assert(entries.skip(0) == entries);
        while k < self.files.len()
            invariant
                k <= self.files.len(),
                entries == entries_of(self.files@),
                first_at(entries, number) == k + first_at(entries.skip(k as int), number),
            ensures
                k <= self.files.len(),
                first_at(entries, number) == k,
            decreases self.files.len() - k,
        {
            let ghost rest = entries.skip(k as int);
            if self.files[k].number == number {
                break;
            }
            assert(rest.drop_first() == entries.skip(k + 1));
            k += 1;
        }
        k
    }

    /// What is stored under the number, if anything is.
    pub fn content(&self, number: u64) -> (r: Option<&Stored>)
        ensures
            match r {
                Some(stored) => content_of(self.entries(), number) == Some(stored@),
                None => content_of(self.entries(), number) is None,
            },
    {
        let k = self.position(number);
        if k < self.files.len() {
            Some(&self.files[k].content)
        } else {
            None
        }
    }

    /// Stores `content` under `number`, in the place of what was stored under
    /// it, or at the end if nothing was. A record that carries another number
    /// than `number` is not admitted: unreadable content is stored in its
    /// place.
    pub fn store(&mut self, number: u64, content: Stored)
        requires
            old(self).wf(),
        ensures
            final(self).wf(),
            final(self).entries() == put(
                old(self).entries(),
                number,
                admitted(number, content@),
            ),
            final(self).stored_tags() == old(self).stored_tags(),
    {
        let content = match content {
            Stored::Record(record) => {
                if record.number == number {
                    Stored::Record(record)
                } else {
                    Stored::Unreadable
                }
            },
            other => other,
        };
        let k = self.position(number);
        proof {
            lemma_put(self.entries(), number, content@);
            lemma_own_numbers(self.entries(), number, content@);
        }
        let file = StoredFile { number, content };
        if k < self.files.len() {
            self.files.set(k, file);
        } else {
            self.files.push(file);
        }
        assert(entries_of(self.files@) =~= put(old(self).entries(), number, content@));
    }

    /// Stores the dictionary's lists, or that there are none.
    pub fn store_tags(&mut self, tags: StoredTags)
        ensures
            final(self).wf() == old(self).wf(),
            final(self).entries() == old(self).entries(),
            final(self).stored_tags() == tags,
    {
        self.tags = tags;
    }
}

/// Whether content of the given schema version can be read: its version must
/// not be above `METADATA_VERSION`.
pub fn supports_version(version: u64) -> (b: bool)
    ensures
        b == (version <= METADATA_VERSION),
{
    version <= METADATA_VERSION
}

/// What stands for a file's content in the store, given what could be read of
/// the file: its schema version, if one could be read, and its record, if all
/// of its fields could be read.
///
/// Without a version the content is unreadable. A version above
/// `METADATA_VERSION` is kept alone, whatever else was read. Otherwise the
/// record is kept, or the version alone if there is no record.
pub open spec fn content_from(version: Option<u64>, record: Option<Record>) -> Content {
    match version {
        None => Content::Unreadable,
        Some(v) => match record {
            Some(r) => if v <= METADATA_VERSION {
                Content::Record(r)
            } else {
                Content::Version(v)
            },
            None => Content::Version(v),
        },
    }
}

impl Stored {
    /// What stands for a file's content in the store, given what could be
    /// read of the file: its schema version, if one could be read, and its
    /// record, if all of its fields could be read.
    pub fn from_parts(version: Option<u64>, record: Option<RfcMetadata>) -> (stored: Stored)
        ensures
            stored@ == content_from(
                version,
                match record {
                    Some(r) => Some(r@),
                    None => None,
                },
            ),
    {
        match version {
            None => Stored::Unreadable,
            Some(v) => match record {
                Some(r) => {
                    if supports_version(v) {
                        Stored::Record(r)
                    } else {
                        Stored::Version(v)
                    }
                },
                None => Stored::Version(v),
            },
        }
    }
}

/// Reads stored content as a record.
///
/// Content with a schema version above `METADATA_VERSION` is refused with
/// `Error::UnsupportedMetadataVersion` and that version, whatever else it
/// holds. Other content is refused with `Error::Serialization` unless it holds
/// a record, which is then returned.
pub fn read_metadata(stored: &Stored) -> (r: Result<RfcMetadata, Error>)
    ensures
        record_result(r) == read(stored@),
{
    match stored {
        Stored::Unreadable => Err(Error::Serialization),
        Stored::Version(version) => {
            if supports_version(*version) {
                Err(Error::Serialization)
            } else {
                Err(Error::UnsupportedMetadataVersion(*version))
            }
        },
        Stored::Record(record) => {
            if supports_version(record.version) {
                Ok(record.clone())
            } else {
                Err(Error::UnsupportedMetadataVersion(record.version))
            }
        },
    }
}

/// Stores a record under its number, in the place of whatever was stored
/// under that number. This always succeeds.
pub fn save_metadata(store: &mut MetadataStore, metadata: &RfcMetadata) -> (r: Result<(), Error>)
    requires
        old(store).wf(),
    ensures
        r == Ok::<(), Error>(()),
        final(store).wf(),
        final(store).entries() == put(
            old(store).entries(),
            metadata.number,
            Content::Record(metadata@),
        ),
        final(store).stored_tags() == old(store).stored_tags(),
{
    store.store(metadata.number, Stored::Record(metadata.clone()));
    Ok(())
}

/// The record stored under a number.
///
/// Fails with `Error::FileNotFound` if nothing is stored under the number,
/// with `Error::UnsupportedMetadataVersion` if what is stored has a schema
/// version above `METADATA_VERSION`, and with `Error::Serialization` if it
/// holds no record.
pub fn open_metadata(store: &MetadataStore, number: u64) -> (r: Result<RfcMetadata, Error>)
    ensures
        record_result(r) == opened(store.entries(), number),
{
    match store.content(number) {
        Some(stored) => read_metadata(stored),
        None => Err(Error::FileNotFound),
    }
}

/// Removes what is stored under a number. Fails with `Error::FileNotFound`,
/// and changes nothing, if nothing is stored under it.
pub fn delete_metadata(store: &mut MetadataStore, number: u64) -> (r: Result<(), Error>)
    requires
        old(store).wf(),
    ensures
        final(store).wf(),
        final(store).stored_tags() == old(store).stored_tags(),
        final(store).entries() == without(old(store).entries(), number),
        r == if has_number(old(store).entries(), number) {
            Ok::<(), Error>(())
        } else {
            Err::<(), Error>(Error::FileNotFound)
        },
{
    let k = store.position(number);
    if k < store.files.len() {
        proof {
            lemma_without(store.entries(), number);
            lemma_own_numbers(store.entries(), number, Content::Unreadable);
        }
        store.files.remove(k);
        assert(entries_of(store.files@) =~= without(old(store).entries(), number));
        Ok(())
    } else {
        Err(Error::FileNotFound)
    }
}

/// Tests whether anything is stored under a number, without reading it.
/// Fails with `Error::FileNotFound` if nothing is.
pub fn metadata_exists(store: &MetadataStore, number: u64) -> (r: Result<(), Error>)
    ensures
        r == if has_number(store.entries(), number) {
            Ok::<(), Error>(())
        } else {
            Err::<(), Error>(Error::FileNotFound)
        },
{
    let k = store.position(number);
    if k < store.files.len() {
        Ok(())
    } else {
        Err(Error::FileNotFound)
    }
}

/// The records of all entries, in the store's order. Fails, with the error
/// of the first entry that cannot be read as a record, if there is one.
pub fn all_metadata(store: &MetadataStore) -> (r: Result<Vec<RfcMetadata>, Error>)
    ensures
        match r {
            Ok(records) => all_read(store.entries()) == Ok::<Seq<Record>, Error>(
                records_of(records@),
            ),
            Err(e) => all_read(store.entries()) == Err::<Seq<Record>, Error>(e),
        },
{
    let ghost entries = store.entries();
    let mut records: Vec<RfcMetadata> = Vec::new();
    let mut i: usize = 0;
    assert(records_of(records@) =~= Seq::<Record>::empty());
    while i < store.files.len()
        invariant
            i <= store.files.len(),
            entries == entries_of(store.files@),
            entries == store.entries(),
            all_read(entries.take(i as int)) == Ok::<Seq<Record>, Error>(records_of(records@)),
        decreases store.files.len() - i,
    {
        proof {
            let next = entries.take(i + 1);
            assert(next.drop_last() == entries.take(i as int));
        }
        match read_metadata(&store.files[i].content) {
            Ok(record) => {
                let ghost before = records@;
                records.push(record);
                assert(records_of(records@) =~= records_of(before).push(record@));
            },
            Err(e) => {
                proof {
                    lemma_all_read_fails(entries, i + 1);
                }
                return Err(e);
            },
        }
        i += 1;
    }
    assert(entries.take(i as int) == entries);
    Ok(records)
}

/// The numbers under which something is stored, in the store's order, without
/// reading what is stored. This always succeeds, and no number comes twice.
pub fn all_metadata_numbers(store: &MetadataStore) -> (r: Result<Vec<u64>, Error>)
    ensures
        r matches Ok(numbers) && numbers@ == numbers_of(store.entries()),
        store.wf() ==> r->Ok_0@.no_duplicates(),
{
    let mut numbers: Vec<u64> = Vec::new();
    let mut i: usize = 0;
    while i < store.files.len()
        invariant
            i <= store.files.len(),
            numbers@ == numbers_of(store.entries()).take(i as int),
        decreases store.files.len() - i,
    {
        numbers.push(store.files[i].number);
        i += 1;
        assert(numbers@ =~= numbers_of(store.entries()).take(i as int));
    }
    assert(numbers_of(store.entries()).take(i as int) == numbers_of(store.entries()));
    assert(store.wf() ==> numbers@.no_duplicates()) by {
        if store.wf() {
            let entries = store.entries();
            assert forall|a: int, b: int|
                0 <= a < numbers@.len() && 0 <= b < numbers@.len() && a != b implies numbers@[a]
                != numbers@[b] by {
                assert(entries[a].number != entries[b].number);
            }
        }
    }
    Ok(numbers)
}

/// Reads the dictionary from the store.
///
/// Fails with `Error::FileNotFound` if no lists are stored and with
/// `Error::Serialization` if what is stored cannot be read as lists. Otherwise
/// the dictionary's `by_team` holds the stored lists and its `by_tag` is
/// derived from them, as their inverse.
pub fn read_tag_metadata(store: &MetadataStore) -> (r: Result<TagMetadata, Error>)
    ensures
        match store.stored_tags()@ {
            TagsContent::Missing => r == Err::<TagMetadata, Error>(Error::FileNotFound),
            TagsContent::Unreadable => r == Err::<TagMetadata, Error>(Error::Serialization),
            TagsContent::Lists(lists) => r matches Ok(dictionary) && lists_view(
                dictionary.by_team@,
            ) == lists && dictionary@.inverse() && dictionary@.by_tag.dom() == known_tags(lists),
        },
{
    match &store.tags {
        StoredTags::Missing => Err(Error::FileNotFound),
        StoredTags::Unreadable => Err(Error::Serialization),
        StoredTags::Lists(lists) => Ok(TagMetadata::new(clone_lists(lists))),
    }
}

/// Stores the given lists as the dictionary's, in the place of any stored
/// before. This always succeeds.
pub fn write_tag_metadata(store: &mut MetadataStore, tags: Vec<TeamTags>) -> (r: Result<(), Error>)
    ensures
        r == Ok::<(), Error>(()),
        final(store).wf() == old(store).wf(),
        final(store).entries() == old(store).entries(),
        final(store).stored_tags()@ == TagsContent::Lists(lists_view(tags@)),
{
    store.store_tags(StoredTags::Lists(tags));
    Ok(())
}

/// A copy of the given lists.
pub fn clone_lists(lists: &Vec<TeamTags>) -> (r: Vec<TeamTags>)
    ensures
        lists_view(r@) == lists_view(lists@),
{
    let mut r: Vec<TeamTags> = Vec::new();
    let mut i: usize = 0;
    while i < lists.len()
        invariant
            i <= lists.len(),
            lists_view(r@) == lists_view(lists@).take(i as int),
        decreases lists.len() - i,
    {
        let ghost before = r@;
        let list = lists[i].clone();
        r.push(list);
        i += 1;
        assert(lists_view(r@) =~= lists_view(before).push((list.team, texts(list.tags@))));
    }
    r
}

/// The name of the file that holds the record of a number: the number in
/// base ten, with zeros in front if it has fewer than four digits, and
/// ".json".
pub open spec fn record_file_name(number: u64) -> Seq<char> {
    zero_padded(decimal(number as nat), 4) + ".json"@
}

/// The path of the file that holds the record of a number: the file's name
/// in the directory "metadata".
pub open spec fn record_path(number: u64) -> Seq<char> {
    "metadata/"@ + record_file_name(number)
}

/// The number that a file's name stands for: what precedes its first dot,
/// read as a number.
pub open spec fn file_number(name: Seq<char>) -> Option<u64> {
    parsed_u64(name.take(index_of(name, '.') as int))
}

/// The path of the file that holds the record of a number, such as
/// "metadata/0050.json".
pub fn metadata_filename(number: u64) -> (path: String)
    ensures
        path@ == record_path(number),
{
    let mut chars = chars_of("metadata/");
    let digits = padded_decimal(number, 4);
    append_chars(&mut chars, &digits);
    let ending = chars_of(".json");
    append_chars(&mut chars, &ending);
    string_of(&chars)
}

/// The number that a file's name stands for, if it stands for one: what
/// precedes its first dot, read as a number.
pub fn metadata_file_number(name: &str) -> (r: Option<u64>)
    ensures
        r == file_number(name@),
{
    let chars = chars_of(name);
    let dot = find_char(&chars, 0, chars.len(), '.');
    assert(chars@.subrange(0, chars@.len() as int) == chars@);
    parse_digits(&chars, 0, dot)
}

/// The number whose record a file of the given name holds: the number that
/// the name stands for, if the name is that of the number's file.
pub fn record_number_of(name: &str) -> (r: Option<u64>)
    ensures
        r matches Some(n) ==> name@ == record_file_name(n),
        forall|n: u64| name@ == record_file_name(n) ==> r == Some(n),
{
    let chars = chars_of(name);
    match metadata_file_number(name) {
        Some(number) => {
            let mut expected = padded_decimal(number, 4);
            let ending = chars_of(".json");
            append_chars(&mut expected, &ending);
            let same = expected.len() == chars.len() && starts_with(&chars, &expected);
            proof {
                assert(same ==> chars@ =~= expected@) by {
                    if same {
                        assert(chars@.subrange(0, expected@.len() as int) == chars@);
                    }
                }
                assert forall|n: u64| name@ == record_file_name(n) implies n == number by {
                    lemma_file_number_of_name(n);
                }
                assert(expected@.subrange(0, expected@.len() as int) == expected@);
            }
            if same {
                Some(number)
            } else {
                None
            }
        },
        None => {
            proof {
                assert forall|n: u64| name@ == record_file_name(n) implies false by {
                    lemma_file_number_of_name(n);
                }
            }
            None
        },
    }
}

/// The name of the file that holds a number's record stands for that number.
pub proof fn lemma_file_number_of_name(number: u64)
    ensures
        file_number(record_file_name(number)) == Some(number),
{
    let digits = zero_padded(decimal(number as nat), 4);
    let name = record_file_name(number);
    lemma_parse_of_decimal(number, 4);
    reveal_strlit(".json");
    assert(".json"@[0] == '.');
    let k = digits.len() as int;
    // the first dot of the name is the one that follows the digits
    lemma_index_of(name, '.');
    assert(name[k] == '.');
    assert forall|i: int| 0 <= i < k implies name[i] != '.' by {
        assert(name[i] == digits[i]);
        assert(crate::numbers::is_digit(digits[i]));
    }
    assert(index_of(name, '.') == k) by {
        let f = index_of(name, '.') as int;
        if f < k {
            assert(name[f] == '.');
        } else if f > k {
            assert(name[k] != '.');
        }
    }
    assert(name.take(k) =~= digits);
}

/// The schema version of stored content, where one can be read from it.
pub open spec fn schema_version(content: Content) -> Option<u64> {
    match content {
        Content::Unreadable => None,
        Content::Version(version) => Some(version),
        Content::Record(record) => Some(record.version),
    }
}

/// What was saved is what opening gives: a record whose schema version is not
/// above `METADATA_VERSION`, once stored under its number, is what opening
/// that number gives.
pub proof fn lemma_save_then_open(entries: Seq<Entry>, record: Record)
    requires
        record.version <= METADATA_VERSION,
    ensures
        opened(put(entries, record.number, Content::Record(record)), record.number) == Ok::<
            Record,
            Error,
        >(record),
{
    lemma_put(entries, record.number, Content::Record(record));
}

/// Opening a number under which nothing is stored gives `Error::FileNotFound`.
pub proof fn lemma_open_missing(entries: Seq<Entry>, number: u64)
    requires
        !has_number(entries, number),
    ensures
        opened(entries, number) == Err::<Record, Error>(Error::FileNotFound),
{
}

/// Opening a number under which content of a schema version above
/// `METADATA_VERSION` is stored gives `Error::UnsupportedMetadataVersion`
/// with that version, whatever else the content holds.
pub proof fn lemma_open_newer(entries: Seq<Entry>, number: u64, content: Content, version: u64)
    requires
        content_of(entries, number) == Some(content),
        schema_version(content) == Some(version),
        version > METADATA_VERSION,
    ensures
        opened(entries, number) == Err::<Record, Error>(
            Error::UnsupportedMetadataVersion(version),
        ),
{
}

} // verus!
