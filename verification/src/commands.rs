//! The operations on the metadata store: adding and changing a record,
//! scanning the source repository, updating tags, and counting.
use vstd::prelude::*;
use crate::errors::Error;
use crate::github::{
    agree_on, document_number, fresh_dictionary, init_tag_metadata, labels_of, merged_tags, merged_teams,
    refreshed, scan_record, scanned_record, update_from_pr, update_outcome, updated, GhMetadata,
    PullRequest, Tracker, UpdateOptions,
};
use crate::metadata::{
    known_tags, opt_text, Record, RfcMetadata, TagMetadata, Team, METADATA_VERSION,
};
use crate::store::{
    all_metadata_numbers, content_of, fits, has_number, lemma_own_numbers, lemma_put,
    metadata_exists, numbers_of, open_metadata, opened, own_numbers, put, read_tag_metadata,
    save_metadata, write_tag_metadata, Content, Entry, MetadataStore, TagsContent,
};
use crate::text::{
    add_distinct, lemma_add_distinct_no_duplicates, lemma_add_distinct_twice, push_distinct,
    same_text, texts,
};
use crate::tokens::{parse_multiple, parsed_field};

verus! {

/// What a new record is made of, apart from its number.
#[derive(Debug)]
pub struct AddFlags {
    pub filename: String,
    pub start_date: String,
    /// The feature names as one text, if any are given.
    pub feature_name: Option<String>,
    /// The issues as one text, if any are given.
    pub issues: Option<String>,
    pub title: Option<String>,
}

/// The fields of a record to change; a field that is `None` stays as it is.
#[derive(Debug)]
pub struct SetFlags {
    pub filename: Option<String>,
    pub start_date: Option<String>,
    /// The feature names as one text.
    pub feature_name: Option<String>,
    /// The issues as one text.
    pub issues: Option<String>,
    pub title: Option<String>,
}

/// The tokens of an optional free-text field; none if the field is not given.
pub open spec fn parsed_or_empty(field: Option<String>) -> Seq<Seq<char>> {
    match field {
        Some(text) => parsed_field(text@),
        None => Seq::empty(),
    }
}

/// The record that is added for the given number and flags: of the current
/// schema version, with the feature names and issues split into tokens, and
/// without teams or tags.
pub open spec fn added_record(number: u64, flags: AddFlags) -> Record {
    Record {
        version: METADATA_VERSION,
        number,
        filename: flags.filename@,
        start_date: flags.start_date@,
        feature_name: parsed_or_empty(flags.feature_name),
        issues: parsed_or_empty(flags.issues),
        title: opt_text(flags.title),
        teams: Seq::empty(),
        tags: Seq::empty(),
    }
}

/// Adds a record for a number.
///
/// Unless `force` is set, this fails with `Error::MetadataAlreadyExists`, and
/// changes nothing, if anything is stored under the number. Otherwise the new
/// record is stored under the number, in the place of what was there.
pub fn add_metadata(store: &mut MetadataStore, number: u64, force: bool, flags: AddFlags) -> (r:
    Result<(), Error>)
    requires
        old(store).wf(),
    ensures
        final(store).wf(),
        final(store).stored_tags() == old(store).stored_tags(),
        !force && has_number(old(store).entries(), number) ==> r == Err::<(), Error>(
            Error::MetadataAlreadyExists,
        ) && final(store).entries() == old(store).entries(),
        force || !has_number(old(store).entries(), number) ==> r == Ok::<(), Error>(())
            && final(store).entries()
            == put(old(store).entries(), number, Content::Record(added_record(number, flags))),
{
    if !force {
        if metadata_exists(store, number).is_ok() {
            return Err(Error::MetadataAlreadyExists);
        }
    }
    let mut metadata = RfcMetadata::new(number, flags.filename, flags.start_date);
    match flags.feature_name {
        Some(s) => {
            metadata.feature_name = parse_multiple(s.as_str());
        },
        None => {},
    }
    match flags.issues {
        Some(s) => {
            metadata.issues = parse_multiple(s.as_str());
        },
        None => {},
    }
    metadata.title = flags.title;
    save_metadata(store, &metadata)
}

/// The record with the given fields changed: the feature names and issues
/// are split into tokens; a field that is not given stays as it is.
pub open spec fn changed_record(record: Record, flags: SetFlags) -> Record {
    Record {
        version: record.version,
        number: record.number,
        filename: match flags.filename {
            Some(f) => f@,
            None => record.filename,
        },
        start_date: match flags.start_date {
            Some(f) => f@,
            None => record.start_date,
        },
        feature_name: match flags.feature_name {
            Some(f) => parsed_field(f@),
            None => record.feature_name,
        },
        issues: match flags.issues {
            Some(f) => parsed_field(f@),
            None => record.issues,
        },
        title: match flags.title {
            Some(f) => Some(f@),
            None => record.title,
        },
        teams: record.teams,
        tags: record.tags,
    }
}

/// Changes the given fields of the record stored under a number.
///
/// Fails as `open_metadata` does, and then changes nothing. Otherwise the
/// record is stored again with the given fields changed.
pub fn set_metadata(store: &mut MetadataStore, number: u64, flags: SetFlags) -> (r: Result<
    (),
    Error,
>)
    requires
        old(store).wf(),
    ensures
        final(store).wf(),
        final(store).stored_tags() == old(store).stored_tags(),
        match opened(old(store).entries(), number) {
            Ok(record) => r == Ok::<(), Error>(()) && final(store).entries() == put(
                old(store).entries(),
                record.number,
                Content::Record(changed_record(record, flags)),
            ),
            Err(e) => r == Err::<(), Error>(e) && final(store).entries() == old(store).entries(),
        },
{
    let mut metadata = match open_metadata(store, number) {
        Ok(m) => m,
        Err(e) => {
            return Err(e);
        },
    };
    match flags.filename {
        Some(f) => {
            metadata.filename = f;
        },
        None => {},
    }
    match flags.start_date {
        Some(f) => {
            metadata.start_date = f;
        },
        None => {},
    }
    match flags.feature_name {
        Some(s) => {
            metadata.feature_name = parse_multiple(s.as_str());
        },
        None => {},
    }
    match flags.issues {
        Some(s) => {
            metadata.issues = parse_multiple(s.as_str());
        },
        None => {},
    }
    match flags.title {
        Some(f) => {
            metadata.title = Some(f);
        },
        None => {},
    }
    save_metadata(store, &metadata)
}

/// A document of the source repository, as plain mathematical values.
pub struct Document {
    pub filename: Seq<char>,
    pub text: Seq<char>,
}

/// The documents of a list, as plain mathematical values.
pub open spec fn documents_of(list: Seq<GhMetadata>) -> Seq<Document> {
    list.map_values(|d: GhMetadata| Document { filename: d.filename@, text: d.text@ })
}

/// Both fields of a record may be touched.
pub open spec fn both_fields() -> UpdateOptions {
    UpdateOptions { tags: true, teams: true }
}

/// The entries after one document was scanned, and whether that went well.
///
/// The document must have a number, else the scan fails with `Error::Parse`.
/// If something is stored under the number and `force` is not set, nothing
/// happens. Otherwise a record is made from the document, which fails with
/// `Error::Parse` on a malformed header; its teams and tags are taken from
/// the labels of its pull request, which fails with `Error::GitHub` if the
/// tracker has none; and it is stored under its number. A scan that fails
/// changes nothing.
pub open spec fn scan_step(
    entries: Seq<Entry>,
    known: Set<Seq<char>>,
    pulls: Seq<PullRequest>,
    force: bool,
    document: Document,
) -> (Seq<Entry>, Result<(), Error>) {
    match document_number(document.filename) {
        None => (entries, Err(Error::Parse)),
        Some(number) => if force || !has_number(entries, number) {
            match scanned_record(document.filename, document.text) {
                None => (entries, Err(Error::Parse)),
                Some(record) => match labels_of(pulls, number) {
                    None => (entries, Err(Error::GitHub)),
                    Some(labels) => (
                        put(
                            entries,
                            number,
                            Content::Record(refreshed(record, known, both_fields(), labels)),
                        ),
                        Ok(()),
                    ),
                },
            }
        } else {
            (entries, Ok(()))
        },
    }
}

/// The entries after the documents were scanned in order, and whether that
/// went well. The first scan that fails ends it: the documents after it are
/// not scanned, and what was stored before it stays.
pub open spec fn scanned(
    entries: Seq<Entry>,
    known: Set<Seq<char>>,
    pulls: Seq<PullRequest>,
    force: bool,
    documents: Seq<Document>,
) -> (Seq<Entry>, Result<(), Error>)
    decreases documents.len(),
{
    if documents.len() == 0 {
        (entries, Ok(()))
    } else {
        let before = scanned(entries, known, pulls, force, documents.drop_last());
        match before.1 {
            Err(e) => before,
            Ok(_) => scan_step(before.0, known, pulls, force, documents.last()),
        }
    }
}

/// Where scanning the first `k` documents fails, scanning all of them ends in
/// the same way.
pub proof fn lemma_scanned_fails(
    entries: Seq<Entry>,
    known: Set<Seq<char>>,
    pulls: Seq<PullRequest>,
    force: bool,
    documents: Seq<Document>,
    k: int,
)
    requires
        0 <= k <= documents.len(),
        scanned(entries, known, pulls, force, documents.take(k)).1 is Err,
    ensures
        scanned(entries, known, pulls, force, documents) == scanned(
            entries,
            known,
            pulls,
            force,
            documents.take(k),
        ),
    decreases documents.len() - k,
{
    if k < documents.len() {
        assert(documents.take(k + 1).drop_last() == documents.take(k));
        lemma_scanned_fails(entries, known, pulls, force, documents, k + 1);
    } else {
        assert(documents.take(k) == documents);
    }
}

/// Scans one document into the store.
fn scan_one(
    store: &mut MetadataStore,
    tag_metadata: &TagMetadata,
    tracker: &Tracker,
    force: bool,
    datum: &GhMetadata,
) -> (r: Result<(), Error>)
    requires
        old(store).wf(),
    ensures
        final(store).wf(),
        final(store).stored_tags() == old(store).stored_tags(),
        (final(store).entries(), r) == scan_step(
            old(store).entries(),
            tag_metadata@.by_tag.dom(),
            tracker.pulls@,
            force,
            (Document { filename: datum.filename@, text: datum.text@ }),
        ),
{
    let number = match datum.number() {
        Ok(n) => n,
        Err(e) => {
            return Err(e);
        },
    };
    if force || metadata_exists(store, number).is_err() {
        let mut metadata = match scan_record(datum) {
            Ok(m) => m,
            Err(e) => {
                return Err(e);
            },
        };
        match update_from_pr(&mut metadata, tag_metadata, UpdateOptions::all(), tracker) {
            Ok(_) => {},
            Err(e) => {
                return Err(e);
            },
        }
        save_metadata(store, &metadata)
    } else {
        Ok(())
    }
}

/// What scanning the documents does to the entries, and how it ends.
///
/// The dictionary is read first; without stored lists the scan fails with
/// `Error::FileNotFound`, with unreadable ones with `Error::Serialization`,
/// and nothing is scanned. Else the documents are scanned in order, against
/// the tags that the stored lists hold.
pub open spec fn scan_result(
    entries: Seq<Entry>,
    tags: TagsContent,
    pulls: Seq<PullRequest>,
    force: bool,
    documents: Seq<Document>,
) -> (Seq<Entry>, Result<(), Error>) {
    match tags {
        TagsContent::Missing => (entries, Err(Error::FileNotFound)),
        TagsContent::Unreadable => (entries, Err(Error::Serialization)),
        TagsContent::Lists(lists) => scanned(entries, known_tags(lists), pulls, force, documents),
    }
}

/// Scans the documents of the source repository into the store.
///
/// The dictionary is read from the store first; if that fails, the scan fails
/// in the same way and changes nothing. Then each document is scanned in
/// order: one under whose number something is stored is passed over unless
/// `force` is set; for any other a record is made from its header and from
/// the labels of its pull request, and stored. The first document that has no
/// number or a malformed header (`Error::Parse`), or for which the tracker
/// has no labels (`Error::GitHub`), ends the scan with that error; what was
/// stored before it stays.
pub fn scan_merged(
    store: &mut MetadataStore,
    documents: &Vec<GhMetadata>,
    tracker: &Tracker,
    force: bool,
) -> (r: Result<(), Error>)
    requires
        old(store).wf(),
    ensures
        final(store).wf(),
        final(store).stored_tags() == old(store).stored_tags(),
        (final(store).entries(), r) == scan_result(
            old(store).entries(),
            old(store).stored_tags()@,
            tracker.pulls@,
            force,
            documents_of(documents@),
        ),
{
    let tag_metadata = match read_tag_metadata(store) {
        Ok(t) => t,
        Err(e) => {
            return Err(e);
        },
    };
    let ghost known = tag_metadata@.by_tag.dom();
    let ghost all = documents_of(documents@);
    let ghost start = store.entries();
    let mut i: usize = 0;
    while i < documents.len()
        invariant
            i <= documents.len(),
            store.wf(),
            store.stored_tags() == old(store).stored_tags(),
            all == documents_of(documents@),
            known == tag_metadata@.by_tag.dom(),
            start == old(store).entries(),
            old(store).stored_tags()@ matches TagsContent::Lists(lists) && known == known_tags(
                lists,
            ),
            scanned(start, known, tracker.pulls@, force, all.take(i as int)) == (
                store.entries(),
                Ok::<(), Error>(()),
            ),
        decreases documents.len() - i,
    {
        proof {
            let next = all.take(i + 1);
            assert(next.drop_last() == all.take(i as int));
        }
        match scan_one(store, &tag_metadata, tracker, force, &documents[i]) {
            Ok(_) => {},
            Err(e) => {
                proof {
                    lemma_scanned_fails(start, known, tracker.pulls@, force, all, i + 1);
                }
                return Err(e);
            },
        }
        i += 1;
    }
    assert(all.take(i as int) == all);
    Ok(())
}

/// Storing under one number does not remove what is stored under another.
proof fn lemma_put_keeps(entries: Seq<Entry>, number: u64, content: Content, other: u64)
    requires
        has_number(entries, other) || other == number,
    ensures
        has_number(put(entries, number, content), other),
{
    lemma_put(entries, number, content);
    if other != number {
        assert(content_of(put(entries, number, content), other) == content_of(entries, other));
    } else {
        assert(content_of(put(entries, number, content), number) is Some);
    }
}

/// A scan step removes nothing, and after a step that went well something is
/// stored under the document's number.
proof fn lemma_scan_step_keeps(
    entries: Seq<Entry>,
    known: Set<Seq<char>>,
    pulls: Seq<PullRequest>,
    force: bool,
    document: Document,
)
    ensures
        forall|n: u64|
            has_number(entries, n) ==> #[trigger] has_number(
                scan_step(entries, known, pulls, force, document).0,
                n,
            ),
        scan_step(entries, known, pulls, force, document).1 is Ok ==> document_number(
            document.filename,
        ) is Some && has_number(
            scan_step(entries, known, pulls, force, document).0,
            document_number(document.filename)->0,
        ),
{
    let after = scan_step(entries, known, pulls, force, document);
    match document_number(document.filename) {
        None => {},
        Some(number) => {
            if after.0 != entries {
                let record = scanned_record(document.filename, document.text)->0;
                let labels = labels_of(pulls, number)->0;
                let content = Content::Record(refreshed(record, known, both_fields(), labels));
                assert(after.0 == put(entries, number, content));
                assert forall|n: u64| has_number(entries, n) implies #[trigger] has_number(
                    after.0,
                    n,
                ) by {
                    lemma_put_keeps(entries, number, content, n);
                }
                lemma_put_keeps(entries, number, content, number);
            }
        },
    }
}

/// Whether each document has a number under which something is stored.
pub open spec fn all_stored(entries: Seq<Entry>, documents: Seq<Document>) -> bool {
    forall|i: int|
        0 <= i < documents.len() ==> document_number((#[trigger] documents[i]).filename) is Some
            && has_number(entries, document_number(documents[i].filename)->0)
}

/// After a scan that went well, each document has a number under which
/// something is stored, and nothing was removed.
proof fn lemma_scanned_stores(
    entries: Seq<Entry>,
    known: Set<Seq<char>>,
    pulls: Seq<PullRequest>,
    force: bool,
    documents: Seq<Document>,
)
    ensures
        forall|n: u64|
            has_number(entries, n) ==> #[trigger] has_number(
                scanned(entries, known, pulls, force, documents).0,
                n,
            ),
        scanned(entries, known, pulls, force, documents).1 is Ok ==> all_stored(
            scanned(entries, known, pulls, force, documents).0,
            documents,
        ),
    decreases documents.len(),
{
    if documents.len() > 0 {
        let shorter = documents.drop_last();
        let before = scanned(entries, known, pulls, force, shorter);
        let after = scanned(entries, known, pulls, force, documents);
        lemma_scanned_stores(entries, known, pulls, force, shorter);
        if before.1 is Ok {
            lemma_scan_step_keeps(before.0, known, pulls, force, documents.last());
            assert forall|n: u64| has_number(entries, n) implies #[trigger] has_number(
                after.0,
                n,
            ) by {
                assert(has_number(before.0, n));
            }
            if after.1 is Ok {
                assert forall|i: int| 0 <= i < documents.len() implies document_number(
                    (#[trigger] documents[i]).filename,
                ) is Some && has_number(after.0, document_number(documents[i].filename)->0) by {
                    if i < shorter.len() {
                        assert(documents[i] == shorter[i]);
                        assert(has_number(before.0, document_number(shorter[i].filename)->0));
                    }
                }
            }
        }
    }
}

/// Where each document has a number under which something is stored, a scan
/// without `force` changes nothing and goes well.
proof fn lemma_scanned_skips(
    entries: Seq<Entry>,
    known: Set<Seq<char>>,
    pulls: Seq<PullRequest>,
    documents: Seq<Document>,
)
    requires
        all_stored(entries, documents),
    ensures
        scanned(entries, known, pulls, false, documents) == (entries, Ok::<(), Error>(())),
    decreases documents.len(),
{
    if documents.len() > 0 {
        let shorter = documents.drop_last();
        assert forall|i: int| 0 <= i < shorter.len() implies document_number(
            (#[trigger] shorter[i]).filename,
        ) is Some && has_number(entries, document_number(shorter[i].filename)->0) by {
            assert(shorter[i] == documents[i]);
        }
        lemma_scanned_skips(entries, known, pulls, shorter);
        assert(documents.last() == documents[documents.len() - 1]);
    }
}

/// A second scan changes nothing.
///
/// Let a scan without `force` take the entries to `first.0` and end as
/// `first.1` says. Then the same scan, run again on `first.0`, leaves the
/// entries as they are and ends in the same way.
pub proof fn lemma_scan_twice(
    entries: Seq<Entry>,
    known: Set<Seq<char>>,
    pulls: Seq<PullRequest>,
    documents: Seq<Document>,
)
    ensures
        ({
            let first = scanned(entries, known, pulls, false, documents);
            scanned(first.0, known, pulls, false, documents) == first
        }),
    decreases documents.len(),
{
    if documents.len() > 0 {
        let shorter = documents.drop_last();
        let last = documents.last();
        let before = scanned(entries, known, pulls, false, shorter);
        let first = scanned(entries, known, pulls, false, documents);
        match before.1 {
            Err(e) => {
                lemma_scan_twice(entries, known, pulls, shorter);
            },
            Ok(_) => {
                // the first run stored every document before the last one
                lemma_scanned_stores(entries, known, pulls, false, shorter);
                lemma_scan_step_keeps(before.0, known, pulls, false, last);
                assert forall|i: int| 0 <= i < shorter.len() implies document_number(
                    (#[trigger] shorter[i]).filename,
                ) is Some && has_number(first.0, document_number(shorter[i].filename)->0) by {
                    assert(has_number(before.0, document_number(shorter[i].filename)->0));
                }
                lemma_scanned_skips(first.0, known, pulls, shorter);
                // so the second run comes to the last document with the
                // entries that the first run left
                assert(scanned(first.0, known, pulls, false, documents) == scan_step(
                    first.0,
                    known,
                    pulls,
                    false,
                    last,
                ));
            },
        }
    }
}

/// A second run of `scan_merged` changes nothing: run without `force` on what
/// a first run without `force` left, with the same documents and the same
/// tracker, it leaves the entries as they are and ends as the first run did.
pub proof fn lemma_scan_merged_twice(
    entries: Seq<Entry>,
    tags: TagsContent,
    pulls: Seq<PullRequest>,
    documents: Seq<Document>,
)
    ensures
        ({
            let first = scan_result(entries, tags, pulls, false, documents);
            scan_result(first.0, tags, pulls, false, documents) == first
        }),
{
    match tags {
        TagsContent::Lists(lists) => {
            lemma_scan_twice(entries, known_tags(lists), pulls, documents);
        },
        _ => {},
    }
}

/// How far an update of tags reaches into records that have teams or tags
/// already.
#[derive(Debug, Clone, Copy, PartialEq, Eq, Structural)]
pub enum TagScanFlags {
    /// Only a field that is empty is refreshed from the tracker.
    Default,
    /// Both fields are overwritten with what the tracker gives, whatever
    /// they hold.
    All,
}

impl Default for TagScanFlags {
    fn default() -> (flags: TagScanFlags)
        ensures
            flags == TagScanFlags::Default,
    {
        TagScanFlags::Default
    }
}

impl TagScanFlags {
    /// The flags that a text names, if it names any.
    pub open spec fn named(s: Seq<char>) -> Option<TagScanFlags> {
        if s == ""@ {
            Some(TagScanFlags::Default)
        } else if s == "all"@ {
            Some(TagScanFlags::All)
        } else {
            None
        }
    }

    /// Reads the flags from an argument: the empty text stands for
    /// `Default`, "all" for `All`. Any other text is refused and handed back
    /// in the error.
    pub fn from_str(s: &str) -> (r: Result<TagScanFlags, Error>)
        ensures
            match r {
                Ok(flags) => TagScanFlags::named(s@) == Some(flags),
                Err(e) => TagScanFlags::named(s@) is None && (e matches Error::ParseArg(t) && t@
                    == s@),
            },
    {
        if same_text(s, "") {
            Ok(TagScanFlags::Default)
        } else if same_text(s, "all") {
            Ok(TagScanFlags::All)
        } else {
            Err(Error::ParseArg(s.to_owned()))
        }
    }
}

/// The record with one more tag, unless it has the tag already or none is given.
pub open spec fn with_tag(record: Record, add: Option<Seq<char>>) -> Record {
    match add {
        Some(tag) => Record { tags: add_distinct(record.tags, tag), ..record },
        None => record,
    }
}

/// The fields that an update of tags refreshes: a field that is empty, and
/// with `All` every field.
pub open spec fn scan_options(record: Record, mode: TagScanFlags) -> UpdateOptions {
    UpdateOptions {
        tags: record.tags.len() == 0 || mode == TagScanFlags::All,
        teams: record.teams.len() == 0 || mode == TagScanFlags::All,
    }
}

/// The record without its teams and tags.
pub open spec fn cleared(record: Record) -> Record {
    Record { teams: Seq::empty(), tags: Seq::empty(), ..record }
}

/// The record as an update of tags takes it up. With `TagScanFlags::All` the
/// teams and tags that it held are dropped first. Then the tag to add, if one
/// is given, is added unless the record has it; so with `All` a tag that is
/// added by the same update stays, before those that the labels give.
pub open spec fn taken_up(
    record: Record,
    add: Option<Seq<char>>,
    scan: Option<TagScanFlags>,
) -> Record {
    if scan == Some(TagScanFlags::All) {
        with_tag(cleared(record), add)
    } else {
        with_tag(record, add)
    }
}

/// Whether the scan of a record that was taken up goes well: it fails, with
/// `Error::GitHub`, if it is to refresh a field and the tracker has no labels
/// for the record's number.
pub open spec fn tag_needs(
    taken: Record,
    scan: Option<TagScanFlags>,
    pulls: Seq<PullRequest>,
) -> Result<(), Error> {
    match scan {
        None => Ok(()),
        Some(mode) => update_outcome(taken, scan_options(taken, mode), pulls),
    }
}

/// The record that an update of tags stores: the record that was taken up,
/// with the fields that `scan_options` names refreshed from the labels if a
/// scan is asked for.
pub open spec fn tag_outcome(
    taken: Record,
    known: Set<Seq<char>>,
    pulls: Seq<PullRequest>,
    scan: Option<TagScanFlags>,
) -> Record {
    match scan {
        None => taken,
        Some(mode) => updated(taken, known, scan_options(taken, mode), pulls),
    }
}

/// The entries after the tags of one number were updated, and whether that
/// went well.
///
/// The record is opened, which may fail as `open_metadata` does. It is taken
/// up as `taken_up` says: with `TagScanFlags::All` its teams and tags are
/// dropped, and the tag to add, if one is given, is added. If a scan is asked
/// for, the fields that are then empty are refreshed from the labels of the
/// record's pull request, which with `All` are both; this fails with
/// `Error::GitHub` if a field is to be refreshed and the tracker has no
/// labels. The record is stored under its number. An update that fails
/// changes nothing.
pub open spec fn tag_step(
    entries: Seq<Entry>,
    known: Set<Seq<char>>,
    pulls: Seq<PullRequest>,
    add: Option<Seq<char>>,
    scan: Option<TagScanFlags>,
    number: u64,
) -> (Seq<Entry>, Result<(), Error>) {
    match opened(entries, number) {
        Err(e) => (entries, Err(e)),
        Ok(record) => {
            let taken = taken_up(record, add, scan);
            match tag_needs(taken, scan, pulls) {
                Err(e) => (entries, Err(e)),
                Ok(_) => (
                    put(
                        entries,
                        taken.number,
                        Content::Record(tag_outcome(taken, known, pulls, scan)),
                    ),
                    Ok(()),
                ),
            }
        },
    }
}

/// The entries after the tags of the numbers were updated in order, and
/// whether that went well. The first update that fails ends it.
pub open spec fn tagged(
    entries: Seq<Entry>,
    known: Set<Seq<char>>,
    pulls: Seq<PullRequest>,
    add: Option<Seq<char>>,
    scan: Option<TagScanFlags>,
    numbers: Seq<u64>,
) -> (Seq<Entry>, Result<(), Error>)
    decreases numbers.len(),
{
    if numbers.len() == 0 {
        (entries, Ok(()))
    } else {
        let before = tagged(entries, known, pulls, add, scan, numbers.drop_last());
        match before.1 {
            Err(e) => before,
            Ok(_) => tag_step(before.0, known, pulls, add, scan, numbers.last()),
        }
    }
}

/// Where updating the first `k` numbers fails, updating all of them ends in
/// the same way.
pub proof fn lemma_tagged_fails(
    entries: Seq<Entry>,
    known: Set<Seq<char>>,
    pulls: Seq<PullRequest>,
    add: Option<Seq<char>>,
    scan: Option<TagScanFlags>,
    numbers: Seq<u64>,
    k: int,
)
    requires
        0 <= k <= numbers.len(),
        tagged(entries, known, pulls, add, scan, numbers.take(k)).1 is Err,
    ensures
        tagged(entries, known, pulls, add, scan, numbers) == tagged(
            entries,
            known,
            pulls,
            add,
            scan,
            numbers.take(k),
        ),
    decreases numbers.len() - k,
{
    if k < numbers.len() {
        assert(numbers.take(k + 1).drop_last() == numbers.take(k));
        lemma_tagged_fails(entries, known, pulls, add, scan, numbers, k + 1);
    } else {
        assert(numbers.take(k) == numbers);
    }
}

/// The scan that is asked for: none, or one with the given flags, which are
/// `Default` where none are given.
pub open spec fn scan_mode(scan: Option<Option<TagScanFlags>>) -> Option<TagScanFlags> {
    match scan {
        Some(Some(mode)) => Some(mode),
        Some(None) => Some(TagScanFlags::Default),
        None => None,
    }
}

/// The numbers that an update of tags goes through: those given, or all
/// numbers of the store where none are given.
pub open spec fn tag_targets(entries: Seq<Entry>, numbers: Seq<u64>) -> Seq<u64> {
    if numbers.len() == 0 {
        numbers_of(entries)
    } else {
        numbers
    }
}

/// What an update of tags does to the entries, and how it ends.
///
/// Where no numbers are given, all numbers of the store are taken. If a scan
/// is asked for, the dictionary is read first: without stored lists the update
/// fails with `Error::FileNotFound`, with unreadable ones with
/// `Error::Serialization`, and nothing changes. Then the numbers are updated
/// in order.
pub open spec fn tag_result(
    entries: Seq<Entry>,
    tags: TagsContent,
    pulls: Seq<PullRequest>,
    numbers: Seq<u64>,
    add: Option<Seq<char>>,
    scan: Option<Option<TagScanFlags>>,
) -> (Seq<Entry>, Result<(), Error>) {
    let numbers = tag_targets(entries, numbers);
    match scan_mode(scan) {
        None => tagged(entries, Set::empty(), pulls, add, None, numbers),
        Some(mode) => match tags {
            TagsContent::Missing => (entries, Err(Error::FileNotFound)),
            TagsContent::Unreadable => (entries, Err(Error::Serialization)),
            TagsContent::Lists(lists) => tagged(
                entries,
                known_tags(lists),
                pulls,
                add,
                Some(mode),
                numbers,
            ),
        },
    }
}

/// Updates the tags of one number.
fn tag_one(
    store: &mut MetadataStore,
    tag_metadata: &TagMetadata,
    tracker: &Tracker,
    add: &Option<String>,
    scan: Option<TagScanFlags>,
    number: u64,
) -> (r: Result<(), Error>)
    requires
        old(store).wf(),
    ensures
        final(store).wf(),
        final(store).stored_tags() == old(store).stored_tags(),
        (final(store).entries(), r) == tag_step(
            old(store).entries(),
            tag_metadata@.by_tag.dom(),
            tracker.pulls@,
            opt_text(*add),
            scan,
            number,
        ),
{
    let mut metadata = match open_metadata(store, number) {
        Ok(m) => m,
        Err(e) => {
            return Err(e);
        },
    };
    let ghost found = metadata@;
    match scan {
        Some(TagScanFlags::All) => {
            metadata.teams = Vec::new();
            metadata.tags = Vec::new();
            assert(metadata@ =~= cleared(found)) by {
                assert(texts(metadata.tags@) =~= Seq::<Seq<char>>::empty());
            }
        },
        _ => {},
    }
    match add {
        Some(tag) => {
            push_distinct(&mut metadata.tags, tag.clone());
        },
        None => {},
    }
    match scan {
        Some(mode) => {
            let opts = UpdateOptions {
                tags: metadata.tags.len() == 0 || mode == TagScanFlags::All,
                teams: metadata.teams.len() == 0 || mode == TagScanFlags::All,
            };
            match update_from_pr(&mut metadata, tag_metadata, opts, tracker) {
                Ok(_) => {},
                Err(e) => {
                    return Err(e);
                },
            }
        },
        None => {},
    }
    save_metadata(store, &metadata)
}

/// Makes the dictionary's lists anew from the labels of all documents and
/// stores them in the place of those stored before.
///
/// `filenames` are the file names of the documents in the source repository.
/// Fails as `init_tag_metadata` does, and then changes nothing.
pub fn tag_init(store: &mut MetadataStore, filenames: &Vec<String>, tracker: &Tracker) -> (r:
    Result<(), Error>)
    ensures
        final(store).wf() == old(store).wf(),
        final(store).entries() == old(store).entries(),
        match fresh_dictionary(texts(filenames@), tracker.pulls@) {
            Ok(lists) => r == Ok::<(), Error>(()) && final(store).stored_tags()@
                == TagsContent::Lists(lists),
            Err(e) => r == Err::<(), Error>(e) && final(store).stored_tags() == old(
                store,
            ).stored_tags(),
        },
{
    let data = match init_tag_metadata(filenames, tracker) {
        Ok(d) => d,
        Err(e) => {
            return Err(e);
        },
    };
    write_tag_metadata(store, data)
}

/// Updates the tags of records.
///
/// With `init`, the dictionary is made anew as `tag_init` does and no record
/// is touched. Otherwise the records under the given numbers, or all records
/// of the store where no numbers are given, are updated in order: the tag
/// `add`, if given, is added to a record unless the record has it; and if
/// `scan` is given, the record's teams and tags are refreshed from the labels
/// of its pull request: by default each only where it is empty; with
/// `TagScanFlags::All` both are overwritten, so that what the record held is
/// gone and only the tag added by this update stays beside what the labels
/// give. The first record that cannot be opened, or for which the tracker has
/// no labels where some are needed, ends the update with its error; what was
/// stored before it stays.
pub fn tag(
    store: &mut MetadataStore,
    filenames: &Vec<String>,
    tracker: &Tracker,
    numbers: Vec<u64>,
    add: Option<String>,
    scan: Option<Option<TagScanFlags>>,
    init: bool,
) -> (r: Result<(), Error>)
    requires
        old(store).wf(),
    ensures
        final(store).wf(),
        init ==> final(store).entries() == old(store).entries() && match fresh_dictionary(
            texts(filenames@),
            tracker.pulls@,
        ) {
            Ok(lists) => r == Ok::<(), Error>(()) && final(store).stored_tags()@
                == TagsContent::Lists(lists),
            Err(e) => r == Err::<(), Error>(e) && final(store).stored_tags() == old(
                store,
            ).stored_tags(),
        },
        !init ==> final(store).stored_tags() == old(store).stored_tags() && (
            final(store).entries(),
            r,
        ) == tag_result(
            old(store).entries(),
            old(store).stored_tags()@,
            tracker.pulls@,
            numbers@,
            opt_text(add),
            scan,
        ),
{
    if init {
        return tag_init(store, filenames, tracker);
    }
    let targets = if numbers.len() == 0 {
        match all_metadata_numbers(store) {
            Ok(all) => all,
            Err(e) => {
                return Err(e);
            },
        }
    } else {
        numbers
    };
    let mode: Option<TagScanFlags> = match scan {
        Some(Some(m)) => Some(m),
        Some(None) => Some(TagScanFlags::default()),
        None => None,
    };
    let tag_metadata = if mode.is_some() {
        match read_tag_metadata(store) {
            Ok(t) => t,
            Err(e) => {
                return Err(e);
            },
        }
    } else {
        TagMetadata::new(Vec::new())
    };
    let ghost known = tag_metadata@.by_tag.dom();
    let ghost start = store.entries();
    let ghost adding = opt_text(add);
    assert(mode is None ==> known =~= Set::<Seq<char>>::empty()) by {
        if mode is None {
            assert forall|tag: Seq<char>| !known.contains(tag) by {
                assert(forall|team: Team|
                    crate::metadata::team_list(Seq::empty(), team) is None);
            }
        }
    }
    let mut i: usize = 0;
    assert(targets@.take(0).len() == 0);
    while i < targets.len()
        invariant
            i <= targets.len(),
            !init,
            store.wf(),
            store.stored_tags() == old(store).stored_tags(),
            start == old(store).entries(),
            targets@ == if numbers@.len() == 0 {
                numbers_of(start)
            } else {
                numbers@
            },
            mode == scan_mode(scan),
            mode is None ==> known == Set::<Seq<char>>::empty(),
            mode is Some ==> (old(store).stored_tags()@ matches TagsContent::Lists(lists) && known
                == known_tags(lists)),
            known == tag_metadata@.by_tag.dom(),
            adding == opt_text(add),
            tagged(start, known, tracker.pulls@, adding, mode, targets@.take(i as int)) == (
                store.entries(),
                Ok::<(), Error>(()),
            ),
        decreases targets.len() - i,
    {
        proof {
            let next = targets@.take(i + 1);
            assert(next.drop_last() == targets@.take(i as int));
            assert(next.last() == targets@[i as int]);
        }
        match tag_one(store, &tag_metadata, tracker, &add, mode, targets[i]) {
            Ok(_) => {},
            Err(e) => {
                proof {
                    lemma_tagged_fails(
                        start,
                        known,
                        tracker.pulls@,
                        adding,
                        mode,
                        targets@,
                        i + 1,
                    );
                }
                return Err(e);
            },
        }
        i += 1;
    }
    assert(targets@.take(i as int) == targets@);
    Ok(())
}

/// By default an update of tags leaves a field that is not empty as it is: a
/// record that has teams keeps exactly those, and one that has tags keeps
/// exactly those, whatever the tracker and the dictionary hold.
pub proof fn lemma_default_scan_keeps(
    record: Record,
    known: Set<Seq<char>>,
    pulls: Seq<PullRequest>,
)
    ensures
        ({
            let after = updated(
                record,
                known,
                scan_options(record, TagScanFlags::Default),
                pulls,
            );
            &&& record.teams.len() > 0 ==> after.teams == record.teams
            &&& record.tags.len() > 0 ==> after.tags == record.tags
        }),
{
}

/// With `TagScanFlags::All` an update of tags overwrites both fields,
/// whatever they hold: afterwards the teams are those that the labels give,
/// and the tags are the tag that the same update adds, if it adds one, and
/// those that the labels give. Nothing else of the record changes.
pub proof fn lemma_full_scan_overwrites(
    record: Record,
    known: Set<Seq<char>>,
    pulls: Seq<PullRequest>,
    add: Option<Seq<char>>,
    labels: Seq<Seq<char>>,
)
    requires
        labels_of(pulls, record.number) == Some(labels),
    ensures
        ({
            let scan = Some(TagScanFlags::All);
            let taken = taken_up(record, add, scan);
            let after = tag_outcome(taken, known, pulls, scan);
            &&& tag_needs(taken, scan, pulls) is Ok
            &&& after.teams == merged_teams(Seq::empty(), labels)
            &&& add is None ==> after.tags == merged_tags(Seq::empty(), labels, known)
            &&& add matches Some(tag) ==> after.tags == merged_tags(seq![tag], labels, known)
            &&& after == (Record { teams: after.teams, tags: after.tags, ..record })
        }),
{
    match add {
        Some(tag) => {
            assert(add_distinct(Seq::<Seq<char>>::empty(), tag) =~= seq![tag]);
        },
        None => {},
    }
}

/// Adding a tag a second time changes nothing.
///
/// Let an update that adds `add`, without a scan, take the entries to
/// `first.0`. Then the same update of the same number, run on `first.0`,
/// leaves the entries as they are and ends in the same way. The tag is not
/// entered twice: a record whose tags are free of duplicates stays so.
pub proof fn lemma_add_tag_twice(
    entries: Seq<Entry>,
    known: Set<Seq<char>>,
    pulls: Seq<PullRequest>,
    add: Option<Seq<char>>,
    number: u64,
    record: Record,
)
    ensures
        ({
            let first = tag_step(entries, known, pulls, add, None, number);
            tag_step(first.0, known, pulls, add, None, number) == first
        }),
        with_tag(with_tag(record, add), add) == with_tag(record, add),
        record.tags.no_duplicates() ==> with_tag(record, add).tags.no_duplicates(),
        add matches Some(tag) ==> with_tag(record, add).tags.contains(tag),
{
    match add {
        Some(tag) => {
            if record.tags.no_duplicates() {
                lemma_add_distinct_no_duplicates(record.tags, tag);
            }
            lemma_add_distinct_twice(record.tags, tag);
        },
        None => {},
    }
    let first = tag_step(entries, known, pulls, add, None, number);
    match opened(entries, number) {
        Err(e) => {},
        Ok(found) => {
            let stored = with_tag(found, add);
            match add {
                Some(tag) => {
                    lemma_add_distinct_twice(found.tags, tag);
                },
                None => {},
            }
            assert(with_tag(stored, add) == stored);
            lemma_put(entries, stored.number, Content::Record(stored));
            if stored.number != number {
                assert(content_of(first.0, number) == content_of(entries, number));
            }
        },
    }
}

/// What one update of tags does to the entries: it touches only what is
/// stored under the number, where it leaves the record that `tag_outcome`
/// gives, which can be opened again; and each record stays under its own
/// number.
pub proof fn lemma_tag_step(
    entries: Seq<Entry>,
    known: Set<Seq<char>>,
    pulls: Seq<PullRequest>,
    add: Option<Seq<char>>,
    scan: Option<TagScanFlags>,
    number: u64,
)
    requires
        own_numbers(entries),
    ensures
        ({
            let after = tag_step(entries, known, pulls, add, scan, number);
            &&& own_numbers(after.0)
            &&& forall|other: u64|
                other != number ==> #[trigger] opened(after.0, other) == opened(entries, other)
            &&& after.1 is Err ==> after.0 == entries
            &&& after.1 is Ok ==> opened(entries, number) is Ok && opened(
                entries,
                number,
            )->Ok_0.number == number && opened(after.0, number) == Ok::<Record, Error>(
                tag_outcome(
                    taken_up(opened(entries, number)->Ok_0, add, scan),
                    known,
                    pulls,
                    scan,
                ),
            )
        }),
{
    let after = tag_step(entries, known, pulls, add, scan, number);
    if after.1 is Ok {
        let record = opened(entries, number)->Ok_0;
        let taken = taken_up(record, add, scan);
        let stored = tag_outcome(taken, known, pulls, scan);
        assert(content_of(entries, number) == Some(Content::Record(record)));
        lemma_own_numbers(entries, number, Content::Record(stored));
        assert(fits(number, content_of(entries, number)->0));
        assert(stored.number == number && stored.version == record.version);
        lemma_put(entries, number, Content::Record(stored));
        assert forall|other: u64| other != number implies #[trigger] opened(after.0, other)
            == opened(entries, other) by {
            assert(content_of(after.0, other) == content_of(entries, other));
        }
    }
}

/// By default an update of tags, of however many numbers, leaves a field
/// that is not empty as it is.
///
/// Let `record` be what opening `number` gives before an update that is not
/// one with `TagScanFlags::All`. Whether the update goes well or ends early,
/// `number` can be opened afterwards; if the record had teams, it has exactly
/// those; and if it had tags and the update adds none, it has exactly those.
pub proof fn lemma_default_scan_keeps_all(
    entries: Seq<Entry>,
    known: Set<Seq<char>>,
    pulls: Seq<PullRequest>,
    add: Option<Seq<char>>,
    scan: Option<TagScanFlags>,
    numbers: Seq<u64>,
    number: u64,
    record: Record,
)
    requires
        own_numbers(entries),
        scan != Some(TagScanFlags::All),
        opened(entries, number) == Ok::<Record, Error>(record),
    ensures
        ({
            let after = tagged(entries, known, pulls, add, scan, numbers);
            &&& own_numbers(after.0)
            &&& opened(after.0, number) is Ok
            &&& record.teams.len() > 0 ==> opened(after.0, number)->Ok_0.teams == record.teams
            &&& record.tags.len() > 0 && add is None ==> opened(after.0, number)->Ok_0.tags
                == record.tags
        }),
    decreases numbers.len(),
{
    if numbers.len() > 0 {
        let before = tagged(entries, known, pulls, add, scan, numbers.drop_last());
        lemma_default_scan_keeps_all(
            entries,
            known,
            pulls,
            add,
            scan,
            numbers.drop_last(),
            number,
            record,
        );
        if before.1 is Ok {
            lemma_tag_step(before.0, known, pulls, add, scan, numbers.last());
        }
    }
}

/// An update that adds a tag to records that have it changes nothing.
///
/// Let each of the numbers hold a record whose tags hold `tag`. Then the
/// update that adds `tag` to them, without a scan, goes well and leaves the
/// entries as they are.
pub proof fn lemma_tag_present(
    entries: Seq<Entry>,
    known: Set<Seq<char>>,
    pulls: Seq<PullRequest>,
    tag: Seq<char>,
    numbers: Seq<u64>,
)
    requires
        own_numbers(entries),
        forall|i: int|
            0 <= i < numbers.len() ==> opened(entries, #[trigger] numbers[i]) is Ok && opened(
                entries,
                numbers[i],
            )->Ok_0.tags.contains(tag),
    ensures
        tagged(entries, known, pulls, Some(tag), None, numbers) == (entries, Ok::<(), Error>(())),
    decreases numbers.len(),
{
    if numbers.len() > 0 {
        let shorter = numbers.drop_last();
        assert forall|i: int| 0 <= i < shorter.len() implies opened(
            entries,
            #[trigger] shorter[i],
        ) is Ok && opened(entries, shorter[i])->Ok_0.tags.contains(tag) by {
            assert(shorter[i] == numbers[i]);
        }
        lemma_tag_present(entries, known, pulls, tag, shorter);
        let number = numbers.last();
        assert(number == numbers[numbers.len() - 1]);
        let record = opened(entries, number)->Ok_0;
        assert(content_of(entries, number) == Some(Content::Record(record)));
        lemma_own_numbers(entries, number, Content::Record(record));
        assert(fits(number, content_of(entries, number)->0));
        crate::store::lemma_first_at(entries, number);
        assert(put(entries, number, Content::Record(record)) =~= entries);
    }
}

/// Adding a tag a second time, to however many numbers, changes nothing.
///
/// Let an update that adds `tag`, without a scan, take the entries to
/// `first.0` and end as `first.1` says. Then the same update, run on
/// `first.0`, leaves the entries as they are and ends in the same way.
pub proof fn lemma_add_tag_twice_all(
    entries: Seq<Entry>,
    known: Set<Seq<char>>,
    pulls: Seq<PullRequest>,
    tag: Seq<char>,
    numbers: Seq<u64>,
)
    requires
        own_numbers(entries),
    ensures
        ({
            let first = tagged(entries, known, pulls, Some(tag), None, numbers);
            &&& own_numbers(first.0)
            &&& tagged(first.0, known, pulls, Some(tag), None, numbers) == first
            &&& first.1 is Ok ==> forall|i: int|
                0 <= i < numbers.len() ==> opened(first.0, #[trigger] numbers[i]) is Ok && opened(
                    first.0,
                    numbers[i],
                )->Ok_0.tags.contains(tag)
        }),
    decreases numbers.len(),
{
    if numbers.len() > 0 {
        let add = Some(tag);
        let shorter = numbers.drop_last();
        let number = numbers.last();
        let before = tagged(entries, known, pulls, add, None, shorter);
        let first = tagged(entries, known, pulls, add, None, numbers);
        lemma_add_tag_twice_all(entries, known, pulls, tag, shorter);
        if before.1 is Ok {
            lemma_tag_step(before.0, known, pulls, add, None, number);
            // after the last step each earlier number still holds the tag
            assert forall|i: int| 0 <= i < shorter.len() implies opened(
                first.0,
                #[trigger] shorter[i],
            ) is Ok && opened(first.0, shorter[i])->Ok_0.tags.contains(tag) by {
                assert(opened(before.0, shorter[i]) is Ok);
                if shorter[i] == number && first.1 is Ok {
                    lemma_add_distinct_twice(opened(before.0, number)->Ok_0.tags, tag);
                }
            }
            lemma_tag_present(first.0, known, pulls, tag, shorter);
            lemma_add_tag_twice(entries, known, pulls, add, number, opened(entries, number)->Ok_0);
            lemma_add_tag_twice(before.0, known, pulls, add, number, opened(before.0, number)->Ok_0);
            if first.1 is Ok {
                lemma_add_distinct_twice(opened(before.0, number)->Ok_0.tags, tag);
                assert forall|i: int| 0 <= i < numbers.len() implies opened(
                    first.0,
                    #[trigger] numbers[i],
                ) is Ok && opened(first.0, numbers[i])->Ok_0.tags.contains(tag) by {
                    if i < shorter.len() {
                        assert(numbers[i] == shorter[i]);
                    }
                }
            }
        }
    }
}

/// What `tag` promises of a default scan: a record that has teams keeps
/// exactly those, and one that has tags keeps exactly those unless a tag is
/// added, whatever the tracker and the dictionary hold and however the update
/// ends.
pub proof fn lemma_tag_keeps(
    entries: Seq<Entry>,
    tags: TagsContent,
    pulls: Seq<PullRequest>,
    numbers: Seq<u64>,
    add: Option<Seq<char>>,
    scan: Option<Option<TagScanFlags>>,
    number: u64,
    record: Record,
)
    requires
        own_numbers(entries),
        scan_mode(scan) != Some(TagScanFlags::All),
        opened(entries, number) == Ok::<Record, Error>(record),
    ensures
        ({
            let after = tag_result(entries, tags, pulls, numbers, add, scan);
            &&& opened(after.0, number) is Ok
            &&& record.teams.len() > 0 ==> opened(after.0, number)->Ok_0.teams == record.teams
            &&& record.tags.len() > 0 && add is None ==> opened(after.0, number)->Ok_0.tags
                == record.tags
        }),
{
    let targets = tag_targets(entries, numbers);
    match scan_mode(scan) {
        None => {
            lemma_default_scan_keeps_all(
                entries,
                Set::empty(),
                pulls,
                add,
                None,
                targets,
                number,
                record,
            );
        },
        Some(mode) => {
            match tags {
                TagsContent::Lists(lists) => {
                    lemma_default_scan_keeps_all(
                        entries,
                        known_tags(lists),
                        pulls,
                        add,
                        Some(mode),
                        targets,
                        number,
                        record,
                    );
                },
                _ => {},
            }
        },
    }
}

/// What `tag` promises of adding a tag that is there: if each record that the
/// update goes through holds the tag, the update without a scan goes well and
/// changes nothing; so no tag is entered twice.
pub proof fn lemma_tag_adds_once(
    entries: Seq<Entry>,
    tags: TagsContent,
    pulls: Seq<PullRequest>,
    numbers: Seq<u64>,
    tag: Seq<char>,
)
    requires
        own_numbers(entries),
        forall|i: int|
            0 <= i < tag_targets(entries, numbers).len() ==> opened(
                entries,
                #[trigger] tag_targets(entries, numbers)[i],
            ) is Ok && opened(entries, tag_targets(entries, numbers)[i])->Ok_0.tags.contains(tag),
    ensures
        tag_result(entries, tags, pulls, numbers, Some(tag), None) == (
            entries,
            Ok::<(), Error>(()),
        ),
{
    lemma_tag_present(entries, Set::empty(), pulls, tag, tag_targets(entries, numbers));
}

/// The numbers for which a scan of the documents may ask the tracker: those
/// of the documents that have a number under which nothing is stored, or of
/// all documents that have a number if `force` is set, in the documents' order.
pub open spec fn scan_reads(entries: Seq<Entry>, force: bool, documents: Seq<Document>) -> Seq<
    u64,
>
    decreases documents.len(),
{
    if documents.len() == 0 {
        Seq::empty()
    } else {
        let before = scan_reads(entries, force, documents.drop_last());
        match document_number(documents.last().filename) {
            Some(number) => if force || !has_number(entries, number) {
                before.push(number)
            } else {
                before
            },
            None => before,
        }
    }
}

/// The numbers for which `scan_merged` may ask the tracker; it asks for no
/// other.
pub fn labels_for_scan(store: &MetadataStore, documents: &Vec<GhMetadata>, force: bool) -> (numbers:
    Vec<u64>)
    ensures
        numbers@ == scan_reads(store.entries(), force, documents_of(documents@)),
{
    let ghost all = documents_of(documents@);
    let mut numbers: Vec<u64> = Vec::new();
    let mut i: usize = 0;
    assert(all.take(0).len() == 0);
    while i < documents.len()
        invariant
            i <= documents.len(),
            all == documents_of(documents@),
            numbers@ == scan_reads(store.entries(), force, all.take(i as int)),
        decreases documents.len() - i,
    {
        proof {
            let next = all.take(i + 1);
            assert(next.drop_last() == all.take(i as int));
            assert(next.last() == all[i as int]);
        }
        match documents[i].number() {
            Ok(number) => {
                if force || metadata_exists(store, number).is_err() {
                    numbers.push(number);
                }
            },
            Err(_) => {},
        }
        i += 1;
    }
    assert(all.take(i as int) == all);
    numbers
}

/// Whether an update of tags asks the tracker for the labels of a number, as
/// the entries stand: a scan must be asked for, the number's record must
/// open, and a field of it must be there to refresh.
pub open spec fn tag_reads_number(
    entries: Seq<Entry>,
    add: Option<Seq<char>>,
    scan: Option<TagScanFlags>,
    number: u64,
) -> bool {
    match (scan, opened(entries, number)) {
        (Some(mode), Ok(record)) => {
            let opts = scan_options(taken_up(record, add, scan), mode);
            opts.tags || opts.teams
        },
        _ => false,
    }
}

/// The numbers among the given ones for which an update of tags may ask the
/// tracker, in order.
pub open spec fn tag_reads(
    entries: Seq<Entry>,
    add: Option<Seq<char>>,
    scan: Option<TagScanFlags>,
    numbers: Seq<u64>,
) -> Seq<u64>
    decreases numbers.len(),
{
    if numbers.len() == 0 {
        Seq::empty()
    } else if tag_reads_number(entries, add, scan, numbers.last()) {
        tag_reads(entries, add, scan, numbers.drop_last()).push(numbers.last())
    } else {
        tag_reads(entries, add, scan, numbers.drop_last())
    }
}

/// The numbers for which `tag`, called without `init`, may ask the tracker;
/// it asks for no other.
pub fn labels_for_tag(
    store: &MetadataStore,
    numbers: &Vec<u64>,
    add: &Option<String>,
    scan: Option<Option<TagScanFlags>>,
) -> (wanted: Vec<u64>)
    ensures
        wanted@ == tag_reads(
            store.entries(),
            opt_text(*add),
            scan_mode(scan),
            tag_targets(store.entries(), numbers@),
        ),
{
    let mut wanted: Vec<u64> = Vec::new();
    let mode: Option<TagScanFlags> = match scan {
        Some(Some(m)) => Some(m),
        Some(None) => Some(TagScanFlags::default()),
        None => None,
    };
    let all = match all_metadata_numbers(store) {
        Ok(all) => all,
        Err(_) => Vec::new(),
    };
    let targets = if numbers.len() == 0 {
        &all
    } else {
        numbers
    };
    let ghost entries = store.entries();
    let ghost adding = opt_text(*add);
    let mut i: usize = 0;
    assert(targets@.take(0).len() == 0);
    while i < targets.len()
        invariant
            i <= targets.len(),
            entries == store.entries(),
            adding == opt_text(*add),
            wanted@ == tag_reads(entries, adding, mode, targets@.take(i as int)),
        decreases targets.len() - i,
    {
        proof {
            let next = targets@.take(i + 1);
            assert(next.drop_last() == targets@.take(i as int));
            assert(next.last() == targets@[i as int]);
        }
        let reads = match mode {
            Some(m) => match open_metadata(store, targets[i]) {
                Ok(record) => {
                    proof {
                        match adding {
                            Some(tag) => {
                                lemma_add_distinct_twice(record@.tags, tag);
                                lemma_add_distinct_twice(Seq::<Seq<char>>::empty(), tag);
                            },
                            None => {},
                        }
                    }
                    m == TagScanFlags::All || record.teams.len() == 0 || (record.tags.len() == 0
                        && add.is_none())
                },
                Err(_) => false,
            },
            None => false,
        };
        if reads {
            wanted.push(targets[i]);
        }
        i += 1;
    }
    assert(targets@.take(i as int) == targets@);
    wanted
}

/// A scan asks the tracker only for the numbers that `scan_reads` gives: with
/// two trackers that give the same labels for those, it ends in the same way
/// and leaves the same entries.
pub proof fn lemma_scan_asks_only(
    entries: Seq<Entry>,
    known: Set<Seq<char>>,
    first: Seq<PullRequest>,
    second: Seq<PullRequest>,
    force: bool,
    documents: Seq<Document>,
)
    requires
        agree_on(first, second, scan_reads(entries, force, documents)),
    ensures
        scanned(entries, known, first, force, documents) == scanned(
            entries,
            known,
            second,
            force,
            documents,
        ),
    decreases documents.len(),
{
    if documents.len() > 0 {
        let shorter = documents.drop_last();
        let reads = scan_reads(entries, force, documents);
        let fewer = scan_reads(entries, force, shorter);
        assert forall|i: int| 0 <= i < fewer.len() implies labels_of(first, #[trigger] fewer[i])
            == labels_of(second, fewer[i]) by {
            assert(fewer[i] == reads[i]);
        }
        lemma_scan_asks_only(entries, known, first, second, force, shorter);
        let before = scanned(entries, known, first, force, shorter);
        lemma_scanned_stores(entries, known, first, force, shorter);
        match document_number(documents.last().filename) {
            Some(number) => {
                if force || !has_number(before.0, number) {
                    assert(reads[reads.len() - 1] == number);
                }
            },
            None => {},
        }
    }
}

/// While an update of tags goes on, a number whose record could not be opened
/// at the start still cannot, and one for which the tracker was not to be
/// asked at the start still is not one to ask for.
proof fn lemma_tagged_quiet(
    entries: Seq<Entry>,
    known: Set<Seq<char>>,
    pulls: Seq<PullRequest>,
    add: Option<Seq<char>>,
    scan: Option<TagScanFlags>,
    numbers: Seq<u64>,
    n: u64,
)
    requires
        own_numbers(entries),
    ensures
        ({
            let after = tagged(entries, known, pulls, add, scan, numbers).0;
            &&& own_numbers(after)
            &&& opened(entries, n) is Err ==> opened(after, n) == opened(entries, n)
            &&& opened(entries, n) is Ok && !tag_reads_number(entries, add, scan, n) ==> opened(
                after,
                n,
            ) is Ok && !tag_reads_number(after, add, scan, n)
        }),
    decreases numbers.len(),
{
    if numbers.len() > 0 {
        let before = tagged(entries, known, pulls, add, scan, numbers.drop_last());
        let after = tagged(entries, known, pulls, add, scan, numbers).0;
        let number = numbers.last();
        lemma_tagged_quiet(entries, known, pulls, add, scan, numbers.drop_last(), n);
        if before.1 is Ok {
            lemma_tag_step(before.0, known, pulls, add, scan, number);
            if n == number {
                if after != before.0 {
                    let record = opened(before.0, n)->Ok_0;
                    match add {
                        Some(tag) => {
                            lemma_add_distinct_twice(record.tags, tag);
                        },
                        None => {},
                    }
                }
            } else {
                assert(opened(after, n) == opened(before.0, n));
            }
        }
    }
}

/// An update of tags asks the tracker only for the numbers that `tag_reads`
/// gives: with two trackers that give the same labels for those, it ends in
/// the same way and leaves the same entries.
pub proof fn lemma_tag_asks_only(
    entries: Seq<Entry>,
    known: Set<Seq<char>>,
    first: Seq<PullRequest>,
    second: Seq<PullRequest>,
    add: Option<Seq<char>>,
    scan: Option<TagScanFlags>,
    numbers: Seq<u64>,
)
    requires
        own_numbers(entries),
        agree_on(first, second, tag_reads(entries, add, scan, numbers)),
    ensures
        tagged(entries, known, first, add, scan, numbers) == tagged(
            entries,
            known,
            second,
            add,
            scan,
            numbers,
        ),
    decreases numbers.len(),
{
    if numbers.len() > 0 {
        let shorter = numbers.drop_last();
        let number = numbers.last();
        let reads = tag_reads(entries, add, scan, numbers);
        let fewer = tag_reads(entries, add, scan, shorter);
        assert forall|i: int| 0 <= i < fewer.len() implies labels_of(first, #[trigger] fewer[i])
            == labels_of(second, fewer[i]) by {
            assert(fewer[i] == reads[i]);
        }
        lemma_tag_asks_only(entries, known, first, second, add, scan, shorter);
        let before = tagged(entries, known, first, add, scan, shorter);
        lemma_tagged_quiet(entries, known, first, add, scan, shorter, number);
        if before.1 is Ok {
            if tag_reads_number(before.0, add, scan, number) {
                // then the tracker was to be asked for the number at the start
                assert(opened(entries, number) is Ok);
                assert(tag_reads_number(entries, add, scan, number));
                assert(reads[reads.len() - 1] == number);
                let record = opened(before.0, number)->Ok_0;
                assert(content_of(before.0, number) == Some(Content::Record(record)));
                lemma_own_numbers(before.0, number, Content::Record(record));
                assert(fits(number, content_of(before.0, number)->0));
            }
        }
    }
}

/// What a record holds after an update with `TagScanFlags::All`: the teams
/// that the labels give, and as tags the tag that the update adds, if it adds
/// one, and those that the labels give.
pub open spec fn overwritten(
    record: Record,
    known: Set<Seq<char>>,
    add: Option<Seq<char>>,
    labels: Seq<Seq<char>>,
) -> bool {
    &&& record.teams == merged_teams(Seq::empty(), labels)
    &&& record.tags == merged_tags(
        match add {
            Some(tag) => seq![tag],
            None => Seq::empty(),
        },
        labels,
        known,
    )
}

/// With `TagScanFlags::All` an update of tags, of however many numbers,
/// overwrites both fields of each record that it goes through: if the update
/// goes well, the tracker has labels for each of the numbers, and the record
/// under each holds what those labels give, whatever it held before.
pub proof fn lemma_full_scan_overwrites_all(
    entries: Seq<Entry>,
    known: Set<Seq<char>>,
    pulls: Seq<PullRequest>,
    add: Option<Seq<char>>,
    numbers: Seq<u64>,
    number: u64,
)
    requires
        own_numbers(entries),
        numbers.contains(number),
        tagged(entries, known, pulls, add, Some(TagScanFlags::All), numbers).1 is Ok,
    ensures
        ({
            let after = tagged(entries, known, pulls, add, Some(TagScanFlags::All), numbers).0;
            &&& own_numbers(after)
            &&& opened(after, number) is Ok
            &&& labels_of(pulls, number) is Some
            &&& overwritten(opened(after, number)->Ok_0, known, add, labels_of(pulls, number)->0)
        }),
    decreases numbers.len(),
{
    let scan = Some(TagScanFlags::All);
    let shorter = numbers.drop_last();
    let last = numbers.last();
    let before = tagged(entries, known, pulls, add, scan, shorter);
    lemma_tagged_quiet(entries, known, pulls, add, scan, shorter, number);
    lemma_tag_step(before.0, known, pulls, add, scan, last);
    if last == number {
        let record = opened(before.0, number)->Ok_0;
        lemma_full_scan_overwrites(record, known, pulls, add, labels_of(pulls, number)->0);
    } else {
        let i = choose|i: int| 0 <= i < numbers.len() && numbers[i] == number;
        assert(shorter[i] == number);
        lemma_full_scan_overwrites_all(entries, known, pulls, add, shorter, number);
    }
}

/// What `tag` promises of a scan with `TagScanFlags::All`: if it goes well,
/// each record that it went through holds the teams and tags that the labels
/// of its pull request give, and the tag that was added, whatever it held
/// before.
pub proof fn lemma_tag_overwrites(
    entries: Seq<Entry>,
    tags: TagsContent,
    pulls: Seq<PullRequest>,
    numbers: Seq<u64>,
    add: Option<Seq<char>>,
    number: u64,
)
    requires
        own_numbers(entries),
        tag_targets(entries, numbers).contains(number),
        tag_result(entries, tags, pulls, numbers, add, Some(Some(TagScanFlags::All))).1 is Ok,
    ensures
        ({
            let after = tag_result(
                entries,
                tags,
                pulls,
                numbers,
                add,
                Some(Some(TagScanFlags::All)),
            ).0;
            &&& tags is Lists
            &&& opened(after, number) is Ok
            &&& labels_of(pulls, number) is Some
            &&& overwritten(
                opened(after, number)->Ok_0,
                known_tags(tags->Lists_0),
                add,
                labels_of(pulls, number)->0,
            )
        }),
{
    lemma_full_scan_overwrites_all(
        entries,
        known_tags(tags->Lists_0),
        pulls,
        add,
        tag_targets(entries, numbers),
        number,
    );
}

} // verus!
