//! What comes from the source repository and from the pull-request tracker:
//! the documents, their labels, and how labels become teams and tags.
use vstd::prelude::*;
use crate::errors::{or_parse_error, Error};
use crate::header::{header_of, scan_header};
use crate::metadata::{
    contains_team, lists_view, Record, RfcMetadata, TagMetadata, Team, TeamTags, METADATA_VERSION,
};
use crate::numbers::{parse_digits, parsed_u64};
use crate::text::{
    add_distinct, chars_of, has_prefix, lemma_add_distinct_no_duplicates, lemma_texts_push,
    push_distinct, same_text, starts_with, texts,
};

verus! {

/// The team that a label of the tracker stands for, if it stands for one.
pub open spec fn label_team(label: Seq<char>) -> Option<Team> {
    if label == "T-lang"@ {
        Some(Team::Lang)
    } else if label == "T-libs"@ || label == "T-libs-api"@ {
        Some(Team::Libs)
    } else if label == "T-core"@ {
        Some(Team::Core)
    } else if label == "T-compiler"@ {
        Some(Team::Compiler)
    } else if label == "T-dev-tools"@ || label == "T-rustdoc"@ || label == "T-cargo"@ {
        Some(Team::Tools)
    } else if label == "T-doc"@ {
        Some(Team::Docs)
    } else {
        None
    }
}

/// The team that a label of the tracker stands for, if it stands for one.
pub fn team_of_label(label: &str) -> (r: Option<Team>)
    ensures
        r == label_team(label@),
{
    if same_text(label, "T-lang") {
        Some(Team::Lang)
    } else if same_text(label, "T-libs") || same_text(label, "T-libs-api") {
        Some(Team::Libs)
    } else if same_text(label, "T-core") {
        Some(Team::Core)
    } else if same_text(label, "T-compiler") {
        Some(Team::Compiler)
    } else if same_text(label, "T-dev-tools") || same_text(label, "T-rustdoc") || same_text(
        label,
        "T-cargo",
    ) {
        Some(Team::Tools)
    } else if same_text(label, "T-doc") {
        Some(Team::Docs)
    } else {
        None
    }
}

/// The teams after the labels have been read in order: each label that
/// stands for a team adds it, unless it is there already.
pub open spec fn merged_teams(teams: Seq<Team>, labels: Seq<Seq<char>>) -> Seq<Team>
    decreases labels.len(),
{
    if labels.len() == 0 {
        teams
    } else {
        let before = merged_teams(teams, labels.drop_last());
        match label_team(labels.last()) {
            Some(team) => add_distinct(before, team),
            None => before,
        }
    }
}

/// The tags after the labels have been read in order: each label that is a
/// known tag is added, unless it is there already.
pub open spec fn merged_tags(
    tags: Seq<Seq<char>>,
    labels: Seq<Seq<char>>,
    known: Set<Seq<char>>,
) -> Seq<Seq<char>>
    decreases labels.len(),
{
    if labels.len() == 0 {
        tags
    } else {
        let before = merged_tags(tags, labels.drop_last(), known);
        if known.contains(labels.last()) {
            add_distinct(before, labels.last())
        } else {
            before
        }
    }
}

/// Merging takes nothing away: what was there stays in its place, and what is
/// added follows it. It adds nothing twice.
pub proof fn lemma_merge_keeps(
    teams: Seq<Team>,
    tags: Seq<Seq<char>>,
    labels: Seq<Seq<char>>,
    known: Set<Seq<char>>,
)
    ensures
        teams.is_prefix_of(merged_teams(teams, labels)),
        tags.is_prefix_of(merged_tags(tags, labels, known)),
        teams.no_duplicates() ==> merged_teams(teams, labels).no_duplicates(),
        tags.no_duplicates() ==> merged_tags(tags, labels, known).no_duplicates(),
    decreases labels.len(),
{
    if labels.len() > 0 {
        lemma_merge_keeps(teams, tags, labels.drop_last(), known);
        let teams_before = merged_teams(teams, labels.drop_last());
        let tags_before = merged_tags(tags, labels.drop_last(), known);
        if teams.no_duplicates() && label_team(labels.last()) is Some {
            lemma_add_distinct_no_duplicates(teams_before, label_team(labels.last())->0);
        }
        if tags.no_duplicates() {
            lemma_add_distinct_no_duplicates(tags_before, labels.last());
        }
    }
}

/// Which fields of a record an update from the tracker may touch.
#[derive(Debug, Clone, Copy)]
pub struct UpdateOptions {
    pub tags: bool,
    pub teams: bool,
}

impl UpdateOptions {
    /// Both fields.
    pub fn all() -> (opts: UpdateOptions)
        ensures
            opts == (UpdateOptions { tags: true, teams: true }),
    {
        UpdateOptions { tags: true, teams: true }
    }
}

/// The record after an update from the given labels: the teams and the tags
/// are merged with what the labels give, each only if the options name it.
pub open spec fn refreshed(
    record: Record,
    known: Set<Seq<char>>,
    opts: UpdateOptions,
    labels: Seq<Seq<char>>,
) -> Record {
    Record {
        teams: if opts.teams {
            merged_teams(record.teams, labels)
        } else {
            record.teams
        },
        tags: if opts.tags {
            merged_tags(record.tags, labels, known)
        } else {
            record.tags
        },
        ..record
    }
}

/// An update keeps a record well formed: if neither a team nor a tag
/// occurred twice before, none does afterwards, and what was there stays.
pub proof fn lemma_refreshed_well_formed(
    record: Record,
    known: Set<Seq<char>>,
    opts: UpdateOptions,
    labels: Seq<Seq<char>>,
)
    requires
        record.well_formed(),
    ensures
        refreshed(record, known, opts, labels).well_formed(),
        record.teams.is_prefix_of(refreshed(record, known, opts, labels).teams),
        record.tags.is_prefix_of(refreshed(record, known, opts, labels).tags),
{
    lemma_merge_keeps(record.teams, record.tags, labels, known);
}

/// Merges what the labels give into a record's teams and tags, each only if
/// the options name it. A label that stands for a team adds the team; a label
/// that the dictionary knows as a tag adds the tag. Nothing is added twice and
/// nothing is taken away.
pub fn apply_labels(
    metadata: &mut RfcMetadata,
    tag_metadata: &TagMetadata,
    opts: UpdateOptions,
    labels: &Vec<String>,
)
    ensures
        final(metadata)@ == refreshed(
            old(metadata)@,
            tag_metadata@.by_tag.dom(),
            opts,
            texts(labels@),
        ),
{
    let ghost known = tag_metadata@.by_tag.dom();
    if opts.teams {
        let mut i: usize = 0;
        while i < labels.len()
            invariant
                i <= labels.len(),
                metadata.teams@ == merged_teams(old(metadata).teams@, texts(labels@).take(i as int)),
                *metadata == (RfcMetadata { teams: metadata.teams, ..*old(metadata) }),
            decreases labels.len() - i,
        {
            proof {
                let next = texts(labels@).take(i + 1);
                assert(next.drop_last() == texts(labels@).take(i as int));
            }
            match team_of_label(labels[i].as_str()) {
                Some(team) => {
                    if !contains_team(&metadata.teams, team) {
                        metadata.teams.push(team);
                    }
                },
                None => {},
            }
            i += 1;
        }
        assert(texts(labels@).take(i as int) == texts(labels@));
    }
    if opts.tags {
        let mut i: usize = 0;
        let ghost start = *metadata;
        while i < labels.len()
            invariant
                i <= labels.len(),
                known == tag_metadata@.by_tag.dom(),
                texts(metadata.tags@) == merged_tags(
                    texts(start.tags@),
                    texts(labels@).take(i as int),
                    known,
                ),
                *metadata == (RfcMetadata { tags: metadata.tags, ..start }),
            decreases labels.len() - i,
        {
            proof {
                let next = texts(labels@).take(i + 1);
                assert(next.drop_last() == texts(labels@).take(i as int));
            }
            if tag_metadata.contains_tag(&labels[i]) {
                push_distinct(&mut metadata.tags, labels[i].clone());
            }
            i += 1;
        }
        assert(texts(labels@).take(i as int) == texts(labels@));
    }
}

/// What the tracker reports of one pull request: its number and the names
/// of its labels, if it gives any list of labels at all.
#[derive(Debug)]
pub struct PullRequest {
    pub number: u64,
    pub labels: Option<Vec<String>>,
}

/// What the tracker reports, one entry for each pull request that it knows.
/// Of several entries with one number the first counts.
#[derive(Debug)]
pub struct Tracker {
    pub pulls: Vec<PullRequest>,
}

/// The texts of an optional list of strings.
pub open spec fn opt_texts(list: Option<Vec<String>>) -> Option<Seq<Seq<char>>> {
    match list {
        Some(l) => Some(texts(l@)),
        None => None,
    }
}

/// The labels that the tracker gives for a number: those of the first pull
/// request with that number. None if there is no such pull request or if it
/// comes without a list of labels.
pub open spec fn labels_of(pulls: Seq<PullRequest>, number: u64) -> Option<Seq<Seq<char>>>
    decreases pulls.len(),
{
    if pulls.len() == 0 {
        None
    } else if pulls[0].number == number {
        opt_texts(pulls[0].labels)
    } else {
        labels_of(pulls.drop_first(), number)
    }
}

impl Tracker {
    /// A tracker that knows no pull request.
    pub fn new() -> (tracker: Tracker)
        ensures
            tracker.pulls@.len() == 0,
    {
        Tracker { pulls: Vec::new() }
    }

    /// The labels of the pull request with the given number. Fails with
    /// `Error::GitHub` if the tracker has no such pull request or no list of
    /// labels for it.
    pub fn fetch_labels(&self, number: u64) -> (r: Result<&Vec<String>, Error>)
        ensures
            match r {
                Ok(labels) => labels_of(self.pulls@, number) == Some(texts(labels@)),
                Err(e) => labels_of(self.pulls@, number) is None && e == Error::GitHub,
            },
    {
        let mut i: usize = 0;
        assert(self.pulls@.skip(0) == self.pulls@);
        while i < self.pulls.len()
            invariant
                i <= self.pulls.len(),
                labels_of(self.pulls@, number) == labels_of(self.pulls@.skip(i as int), number),
            decreases self.pulls.len() - i,
        {
            let ghost rest = self.pulls@.skip(i as int);
            if self.pulls[i].number == number {
                return match &self.pulls[i].labels {
                    Some(labels) => Ok(labels),
                    None => Err(Error::GitHub),
                };
            }
            assert(rest.drop_first() == self.pulls@.skip(i + 1));
            i += 1;
        }
        Err(Error::GitHub)
    }
}

/// Updates a record's teams and tags from the labels of its pull request.
///
/// If the options name neither field, nothing is asked of the tracker and the
/// record stays as it is. Otherwise the tracker must have labels for the
/// record's number, else the update fails with `Error::GitHub` and the record
/// stays as it is; with labels, they are merged into the fields that the
/// options name.
pub fn update_from_pr(
    metadata: &mut RfcMetadata,
    tag_metadata: &TagMetadata,
    opts: UpdateOptions,
    tracker: &Tracker,
) -> (r: Result<(), Error>)
    ensures
        r == update_outcome(old(metadata)@, opts, tracker.pulls@),
        final(metadata)@ == updated(
            old(metadata)@,
            tag_metadata@.by_tag.dom(),
            opts,
            tracker.pulls@,
        ),
{
    if !opts.tags && !opts.teams {
        return Ok(());
    }
    match tracker.fetch_labels(metadata.number) {
        Ok(labels) => {
            apply_labels(metadata, tag_metadata, opts, labels);
            Ok(())
        },
        Err(e) => Err(e),
    }
}

/// Whether an update with these options succeeds: it fails, with
/// `Error::GitHub`, exactly if the options name a field and the tracker has
/// no labels for the record's number.
pub open spec fn update_outcome(
    record: Record,
    opts: UpdateOptions,
    pulls: Seq<PullRequest>,
) -> Result<(), Error> {
    if (opts.tags || opts.teams) && labels_of(pulls, record.number) is None {
        Err(Error::GitHub)
    } else {
        Ok(())
    }
}

/// The record after an update with these options: unchanged if the options
/// name no field or the tracker has no labels for its number, else refreshed
/// from those labels.
pub open spec fn updated(
    record: Record,
    known: Set<Seq<char>>,
    opts: UpdateOptions,
    pulls: Seq<PullRequest>,
) -> Record {
    if !opts.tags && !opts.teams {
        record
    } else {
        match labels_of(pulls, record.number) {
            Some(labels) => refreshed(record, known, opts, labels),
            None => record,
        }
    }
}

/// The number of a document: its file name's first four characters, read as
/// a number. A shorter name has none.
pub open spec fn document_number(filename: Seq<char>) -> Option<u64> {
    if filename.len() >= 4 {
        parsed_u64(filename.take(4))
    } else {
        None
    }
}

/// The number of a document, read from the first four characters of its file
/// name. Fails with `Error::Parse` if the name is shorter or those characters
/// are no number.
pub fn rfc_number(filename: &str) -> (r: Result<u64, Error>)
    ensures
        r == or_parse_error(document_number(filename@)),
{
    let chars = chars_of(filename);
    if chars.len() < 4 {
        return Err(Error::Parse);
    }
    match parse_digits(&chars, 0, 4) {
        Some(n) => Ok(n),
        None => Err(Error::Parse),
    }
}

/// A document of the source repository: its file name and its text.
#[derive(Debug)]
pub struct GhMetadata {
    pub filename: String,
    pub text: String,
}

impl GhMetadata {
    /// The document's number, read from its file name.
    pub fn number(&self) -> (r: Result<u64, Error>)
        ensures
            r == or_parse_error(document_number(self.filename@)),
    {
        rfc_number(self.filename.as_str())
    }
}

/// A document of the source repository with its number.
#[derive(Debug)]
pub struct GhData {
    pub number: u64,
    pub filename: String,
    pub text: String,
}

/// The record that a document's file name and text give: the number from the
/// name; the start date, the feature names and the issues from the header,
/// each empty where the header does not give it; the current schema version;
/// no title, team or tag. None if the header is malformed or the name has no
/// number.
pub open spec fn scanned_record(filename: Seq<char>, text: Seq<char>) -> Option<Record> {
    match (header_of(text), document_number(filename)) {
        (Some(header), Some(number)) => Some(
            Record {
                version: METADATA_VERSION,
                number,
                filename,
                start_date: match header.start_date {
                    Some(date) => date,
                    None => Seq::empty(),
                },
                feature_name: match header.feature_name {
                    Some(names) => names,
                    None => Seq::empty(),
                },
                issues: match header.issues {
                    Some(issues) => issues,
                    None => Seq::empty(),
                },
                title: None,
                teams: Seq::empty(),
                tags: Seq::empty(),
            },
        ),
        _ => None,
    }
}

/// The record that a document gives. Fails with `Error::Parse` if a line of
/// the document's header holds no colon or its file name has no number.
pub fn scan_record(gh: &GhMetadata) -> (r: Result<RfcMetadata, Error>)
    ensures
        match r {
            Ok(record) => scanned_record(gh.filename@, gh.text@) == Some(record@),
            Err(e) => scanned_record(gh.filename@, gh.text@) is None && e == Error::Parse,
        },
{
    let fields = match scan_header(gh.text.as_str()) {
        Ok(fields) => fields,
        Err(e) => {
            return Err(e);
        },
    };
    let number = match gh.number() {
        Ok(n) => n,
        Err(e) => {
            return Err(e);
        },
    };
    let start_date = match fields.start_date {
        Some(date) => date,
        None => String::new(),
    };
    let mut rfc = RfcMetadata::new(number, gh.filename.clone(), start_date);
    match fields.feature_name {
        Some(names) => {
            rfc.feature_name = names;
        },
        None => {},
    }
    match fields.issues {
        Some(issues) => {
            rfc.issues = issues;
        },
        None => {},
    }
    Ok(rfc)
}

impl RfcMetadata {
    /// The record that a document gives. Fails with `Error::Parse` if a line
    /// of the document's header holds no colon or its file name has no number.
    pub fn try_from(gh: GhMetadata) -> (r: Result<RfcMetadata, Error>)
        ensures
            match r {
                Ok(record) => scanned_record(gh.filename@, gh.text@) == Some(record@),
                Err(e) => scanned_record(gh.filename@, gh.text@) is None && e == Error::Parse,
            },
    {
        scan_record(&gh)
    }
}

/// Whether every file name has a number.
pub open spec fn all_numbered(filenames: Seq<Seq<char>>) -> bool {
    forall|i: int| 0 <= i < filenames.len() ==> document_number(#[trigger] filenames[i]) is Some
}

/// The numbers of the file names, in order.
pub open spec fn document_numbers(filenames: Seq<Seq<char>>) -> Seq<u64> {
    filenames.map_values(|name: Seq<char>| document_number(name)->0)
}

/// The documents with their numbers, in the order given. Fails with
/// `Error::Parse` if the file name of one has no number.
pub fn get_merged_rfc_data(documents: &Vec<GhMetadata>) -> (r: Result<Vec<GhData>, Error>)
    ensures
        match r {
            Ok(data) => {
                &&& data@.len() == documents@.len()
                &&& forall|i: int|
                    0 <= i < data@.len() ==> {
                        &&& document_number(documents@[i].filename@) == Some(
                            (#[trigger] data@[i]).number,
                        )
                        &&& data@[i].filename@ == documents@[i].filename@
                        &&& data@[i].text@ == documents@[i].text@
                    }
            },
            Err(e) => e == Error::Parse && exists|i: int|
                0 <= i < documents@.len() && document_number(
                    (#[trigger] documents@[i]).filename@,
                ) is None,
        },
{
    let mut data: Vec<GhData> = Vec::new();
    let mut i: usize = 0;
    while i < documents.len()
        invariant
            i <= documents.len(),
            data@.len() == i,
            forall|k: int|
                0 <= k < i ==> {
                    &&& document_number(documents@[k].filename@) == Some(
                        (#[trigger] data@[k]).number,
                    )
                    &&& data@[k].filename@ == documents@[k].filename@
                    &&& data@[k].text@ == documents@[k].text@
                },
        decreases documents.len() - i,
    {
        let number = match documents[i].number() {
            Ok(n) => n,
            Err(e) => {
                return Err(e);
            },
        };
        data.push(
            GhData {
                number,
                filename: documents[i].filename.clone(),
                text: documents[i].text.clone(),
            },
        );
        i += 1;
    }
    Ok(data)
}

/// The labels that can become entries of the dictionary: those that begin
/// with "T-" or with "A-".
pub open spec fn is_tag_label(label: Seq<char>) -> bool {
    has_prefix(label, "T-"@) || has_prefix(label, "A-"@)
}

/// The teams that a document's labels name, one for each label that stands
/// for a team, in the labels' order.
pub open spec fn named_teams(labels: Seq<Seq<char>>) -> Seq<Team>
    decreases labels.len(),
{
    if labels.len() == 0 {
        Seq::empty()
    } else {
        let before = named_teams(labels.drop_last());
        if is_tag_label(labels.last()) && label_team(labels.last()) is Some {
            before.push(label_team(labels.last())->0)
        } else {
            before
        }
    }
}

/// The tags among a document's labels: the labels that begin with "T-" or
/// "A-" and stand for no team, in the labels' order.
pub open spec fn loose_tags(labels: Seq<Seq<char>>) -> Seq<Seq<char>>
    decreases labels.len(),
{
    if labels.len() == 0 {
        Seq::empty()
    } else {
        let before = loose_tags(labels.drop_last());
        if is_tag_label(labels.last()) && label_team(labels.last()) is None {
            before.push(labels.last())
        } else {
            before
        }
    }
}

/// The list after each of `tags` has been added in order, unless it was there
/// already.
pub open spec fn add_all_distinct(list: Seq<Seq<char>>, tags: Seq<Seq<char>>) -> Seq<Seq<char>>
    decreases tags.len(),
{
    if tags.len() == 0 {
        list
    } else {
        add_distinct(add_all_distinct(list, tags.drop_last()), tags.last())
    }
}

/// To whom the tags of one document go when the dictionary is made.
#[derive(Debug, Clone, Copy, PartialEq, Eq, Structural)]
pub enum Attribution {
    /// The document has no tags to give.
    NoTags,
    /// Its labels name no team: its tags are passed over.
    NoTeam,
    /// Its labels name one team, once: the team gets its tags.
    Team(Team),
    /// Its labels name a team more than once, or several teams: its tags are
    /// passed over.
    SeveralTeams,
}

/// To whom tags go, given the teams that the labels name.
pub open spec fn attribution_of(teams: Seq<Team>, tags: Seq<Seq<char>>) -> Attribution {
    if tags.len() == 0 {
        Attribution::NoTags
    } else if teams.len() == 0 {
        Attribution::NoTeam
    } else if teams.len() == 1 {
        Attribution::Team(teams[0])
    } else {
        Attribution::SeveralTeams
    }
}

/// The tags that the documents give to a team: those of each document whose
/// tags go to that team, in the order in which they were first given.
pub open spec fn team_bucket(documents: Seq<Seq<Seq<char>>>, team: Team) -> Seq<Seq<char>>
    decreases documents.len(),
{
    if documents.len() == 0 {
        Seq::empty()
    } else {
        let before = team_bucket(documents.drop_last(), team);
        let labels = documents.last();
        if attribution_of(named_teams(labels), loose_tags(labels)) == Attribution::Team(team) {
            add_all_distinct(before, loose_tags(labels))
        } else {
            before
        }
    }
}

/// The teams and the tags among one document's labels.
#[derive(Debug)]
pub struct LabelSplit {
    /// One team for each label that stands for a team.
    pub teams: Vec<Team>,
    /// The other labels that begin with "T-" or "A-".
    pub tags: Vec<String>,
}

impl LabelSplit {
    /// To whom the document's tags go when the dictionary is made: to the one
    /// team that its labels name, or to none, if they name no team or more
    /// than one.
    pub fn attribution(&self) -> (a: Attribution)
        ensures
            a == attribution_of(self.teams@, texts(self.tags@)),
    {
        if self.tags.len() == 0 {
            Attribution::NoTags
        } else if self.teams.len() == 0 {
            Attribution::NoTeam
        } else if self.teams.len() == 1 {
            Attribution::Team(self.teams[0])
        } else {
            Attribution::SeveralTeams
        }
    }
}

/// Parts a document's labels into teams and tags. Labels that begin neither
/// with "T-" nor with "A-" are left out.
pub fn split_labels(labels: &Vec<String>) -> (split: LabelSplit)
    ensures
        split.teams@ == named_teams(texts(labels@)),
        texts(split.tags@) == loose_tags(texts(labels@)),
{
    let mut teams: Vec<Team> = Vec::new();
    let mut tags: Vec<String> = Vec::new();
    let team_prefix = chars_of("T-");
    let topic_prefix = chars_of("A-");
    let mut i: usize = 0;
    while i < labels.len()
        invariant
            i <= labels.len(),
            team_prefix@ == "T-"@,
            topic_prefix@ == "A-"@,
            teams@ == named_teams(texts(labels@).take(i as int)),
            texts(tags@) == loose_tags(texts(labels@).take(i as int)),
        decreases labels.len() - i,
    {
        proof {
            let next = texts(labels@).take(i + 1);
            assert(next.drop_last() == texts(labels@).take(i as int));
        }
        let label = chars_of(labels[i].as_str());
        if starts_with(&label, &team_prefix) || starts_with(&label, &topic_prefix) {
            match team_of_label(labels[i].as_str()) {
                Some(team) => {
                    teams.push(team);
                },
                None => {
                    proof {
                        lemma_texts_push(tags@, labels@[i as int]);
                    }
                    tags.push(labels[i].clone());
                },
            }
        }
        i += 1;
    }
    assert(texts(labels@).take(i as int) == texts(labels@));
    LabelSplit { teams, tags }
}

/// The six teams, in the order in which the dictionary lists them.
pub open spec fn all_teams() -> Seq<Team> {
    seq![Team::Lang, Team::Libs, Team::Core, Team::Tools, Team::Compiler, Team::Docs]
}

/// Whether the tracker has labels for every number.
pub open spec fn all_labelled(pulls: Seq<PullRequest>, numbers: Seq<u64>) -> bool {
    forall|i: int| 0 <= i < numbers.len() ==> labels_of(pulls, #[trigger] numbers[i]) is Some
}

/// The labels that the tracker has for each of the numbers, in order.
pub open spec fn labels_of_all(pulls: Seq<PullRequest>, numbers: Seq<u64>) -> Seq<Seq<Seq<char>>> {
    numbers.map_values(|n: u64| labels_of(pulls, n)->0)
}

/// The lists that a fresh dictionary holds, or why none can be made.
///
/// Every file name must have a number, else the result is `Error::Parse`;
/// then the tracker must have labels for every number, else it is
/// `Error::GitHub`. Otherwise there is one list for each of the six teams, in
/// their order, holding the tags that the documents give to the team.
pub open spec fn fresh_dictionary(filenames: Seq<Seq<char>>, pulls: Seq<PullRequest>) -> Result<
    Seq<(Team, Seq<Seq<char>>)>,
    Error,
> {
    let numbers = document_numbers(filenames);
    if !all_numbered(filenames) {
        Err(Error::Parse)
    } else if !all_labelled(pulls, numbers) {
        Err(Error::GitHub)
    } else {
        Ok(
            Seq::new(
                6,
                |k: int| (all_teams()[k], team_bucket(labels_of_all(pulls, numbers), all_teams()[k])),
            ),
        )
    }
}

/// The tags that the documents give to one team.
fn bucket_of(splits: &Vec<LabelSplit>, team: Team, Ghost(documents): Ghost<Seq<Seq<Seq<char>>>>) -> (bucket:
    Vec<String>)
    requires
        splits@.len() == documents.len(),
        forall|i: int|
            0 <= i < splits@.len() ==> {
                &&& (#[trigger] splits@[i]).teams@ == named_teams(documents[i])
                &&& texts(splits@[i].tags@) == loose_tags(documents[i])
            },
    ensures
        texts(bucket@) == team_bucket(documents, team),
{
    let mut bucket: Vec<String> = Vec::new();
    let mut i: usize = 0;
    assert(texts(bucket@) =~= Seq::<Seq<char>>::empty());
    assert(documents.take(0).len() == 0);
    while i < splits.len()
        invariant
            i <= splits.len(),
            splits@.len() == documents.len(),
            forall|i: int|
                0 <= i < splits@.len() ==> {
                    &&& (#[trigger] splits@[i]).teams@ == named_teams(documents[i])
                    &&& texts(splits@[i].tags@) == loose_tags(documents[i])
                },
            texts(bucket@) == team_bucket(documents.take(i as int), team),
        decreases splits.len() - i,
    {
        proof {
            let next = documents.take(i + 1);
            assert(next.drop_last() == documents.take(i as int));
            assert(next.last() == documents[i as int]);
        }
        let split = &splits[i];
        let gives = match split.attribution() {
            Attribution::Team(named) => named == team,
            _ => false,
        };
        if gives {
            let ghost before = texts(bucket@);
            let tags = &split.tags;
            let mut j: usize = 0;
            assert(texts(tags@).take(0).len() == 0);
            while j < tags.len()
                invariant
                    j <= tags.len(),
                    texts(bucket@) == add_all_distinct(before, texts(tags@).take(j as int)),
                decreases tags.len() - j,
            {
                proof {
                    let next = texts(tags@).take(j + 1);
                    assert(next.drop_last() == texts(tags@).take(j as int));
                    assert(next.last() == tags@[j as int]@);
                }
                push_distinct(&mut bucket, tags[j].clone());
                j += 1;
            }
            assert(texts(tags@).take(j as int) == texts(tags@));
        }
        i += 1;
    }
    assert(documents.take(i as int) == documents);
    bucket
}

/// Makes the dictionary's lists anew from the labels of all documents.
///
/// `filenames` are the file names of the documents in the source repository.
/// Fails with `Error::Parse` if one of them has no number, and else with
/// `Error::GitHub` if the tracker has no labels for one of the numbers.
/// Otherwise each document that has exactly one team label gives its tags to
/// that team; the result lists the six teams in their order, each with its
/// tags in the order in which they were first given.
pub fn init_tag_metadata(filenames: &Vec<String>, tracker: &Tracker) -> (r: Result<
    Vec<TeamTags>,
    Error,
>)
    ensures
        match r {
            Ok(lists) => fresh_dictionary(texts(filenames@), tracker.pulls@) == Ok::<
                Seq<(Team, Seq<Seq<char>>)>,
                Error,
            >(lists_view(lists@)),
            Err(e) => fresh_dictionary(texts(filenames@), tracker.pulls@) == Err::<
                Seq<(Team, Seq<Seq<char>>)>,
                Error,
            >(e),
        },
{
    let ghost names = texts(filenames@);
    let ghost all_numbers = document_numbers(names);
    let mut numbers: Vec<u64> = Vec::new();
    let mut i: usize = 0;
    while i < filenames.len()
        invariant
            i <= filenames.len(),
            names == texts(filenames@),
            numbers@.len() == i,
            forall|k: int|
                0 <= k < i ==> document_number(names[k]) == Some(#[trigger] numbers@[k]),
        decreases filenames.len() - i,
    {
        assert(names[i as int] == filenames@[i as int]@);
        match rfc_number(filenames[i].as_str()) {
            Ok(n) => {
                numbers.push(n);
            },
            Err(e) => {
                return Err(e);
            },
        }
        i += 1;
    }
    assert forall|k: int| 0 <= k < names.len() implies document_number(
        #[trigger] names[k],
    ) is Some by {
        assert(document_number(names[k]) == Some(numbers@[k]));
    }
    let ghost documents = labels_of_all(tracker.pulls@, all_numbers);
    let mut splits: Vec<LabelSplit> = Vec::new();
    let mut k: usize = 0;
    while k < numbers.len()
        invariant
            k <= numbers.len(),
            numbers@ == all_numbers,
            names == texts(filenames@),
            all_numbers == document_numbers(names),
            all_numbered(names),
            documents == labels_of_all(tracker.pulls@, all_numbers),
            splits@.len() == k,
            forall|j: int| 0 <= j < k ==> labels_of(tracker.pulls@, #[trigger] numbers@[j]) is Some,
            forall|j: int|
                0 <= j < k ==> {
                    &&& (#[trigger] splits@[j]).teams@ == named_teams(documents[j])
                    &&& texts(splits@[j].tags@) == loose_tags(documents[j])
                },
        decreases numbers.len() - k,
    {
        match tracker.fetch_labels(numbers[k]) {
            Ok(labels) => {
                splits.push(split_labels(labels));
            },
            Err(e) => {
                return Err(e);
            },
        }
        k += 1;
    }
    let mut lists: Vec<TeamTags> = Vec::new();
    lists.push(TeamTags { team: Team::Lang, tags: bucket_of(&splits, Team::Lang, Ghost(documents)) });
    lists.push(TeamTags { team: Team::Libs, tags: bucket_of(&splits, Team::Libs, Ghost(documents)) });
    lists.push(TeamTags { team: Team::Core, tags: bucket_of(&splits, Team::Core, Ghost(documents)) });
    lists.push(
        TeamTags { team: Team::Tools, tags: bucket_of(&splits, Team::Tools, Ghost(documents)) },
    );
    lists.push(
        TeamTags {
            team: Team::Compiler,
            tags: bucket_of(&splits, Team::Compiler, Ghost(documents)),
        },
    );
    lists.push(TeamTags { team: Team::Docs, tags: bucket_of(&splits, Team::Docs, Ghost(documents)) });
    assert(lists_view(lists@) =~= fresh_dictionary(names, tracker.pulls@)->Ok_0);
    Ok(lists)
}

/// Whether two trackers give the same labels for each of the numbers.
pub open spec fn agree_on(
    first: Seq<PullRequest>,
    second: Seq<PullRequest>,
    numbers: Seq<u64>,
) -> bool {
    forall|i: int|
        0 <= i < numbers.len() ==> labels_of(first, #[trigger] numbers[i]) == labels_of(
            second,
            numbers[i],
        )
}

/// The numbers for which the making of the dictionary asks the tracker:
/// those of all file names, or none if a file name has no number.
pub open spec fn init_reads(filenames: Seq<Seq<char>>) -> Seq<u64> {
    if all_numbered(filenames) {
        document_numbers(filenames)
    } else {
        Seq::empty()
    }
}

/// The numbers for which `init_tag_metadata` may ask the tracker; it asks for
/// no other.
pub fn labels_for_init(filenames: &Vec<String>) -> (numbers: Vec<u64>)
    ensures
        numbers@ == init_reads(texts(filenames@)),
{
    let ghost names = texts(filenames@);
    let mut numbers: Vec<u64> = Vec::new();
    let mut i: usize = 0;
    while i < filenames.len()
        invariant
            i <= filenames.len(),
            names == texts(filenames@),
            numbers@.len() == i,
            forall|k: int|
                0 <= k < i ==> document_number(names[k]) == Some(#[trigger] numbers@[k]),
        decreases filenames.len() - i,
    {
        assert(names[i as int] == filenames@[i as int]@);
        match rfc_number(filenames[i].as_str()) {
            Ok(n) => {
                numbers.push(n);
            },
            Err(_) => {
                return Vec::new();
            },
        }
        i += 1;
    }
    assert(numbers@ =~= document_numbers(names));
    assert forall|k: int| 0 <= k < names.len() implies document_number(
        #[trigger] names[k],
    ) is Some by {
        assert(document_number(names[k]) == Some(numbers@[k]));
    }
    numbers
}

/// The making of the dictionary asks the tracker only for the numbers that
/// `init_reads` gives: with two trackers that give the same labels for those,
/// it comes to the same.
pub proof fn lemma_init_asks_only(
    filenames: Seq<Seq<char>>,
    first: Seq<PullRequest>,
    second: Seq<PullRequest>,
)
    requires
        agree_on(first, second, init_reads(filenames)),
    ensures
        fresh_dictionary(filenames, first) == fresh_dictionary(filenames, second),
{
    if all_numbered(filenames) {
        let numbers = document_numbers(filenames);
        assert forall|i: int| 0 <= i < numbers.len() implies labels_of(
            first,
            #[trigger] numbers[i],
        ) == labels_of(second, numbers[i]) by {}
        assert(labels_of_all(first, numbers) =~= labels_of_all(second, numbers));
        assert(all_labelled(first, numbers) == all_labelled(second, numbers));
    }
}

} // verus!
