//! What the pages of the website show: one page for each document, and an
//! index of all documents and of the teams' tags.
use vstd::prelude::*;
use crate::errors::Error;
use crate::github::GhData;
use crate::metadata::{lists_view, team_list, Record, RfcMetadata, TagMetadata, Team};
use crate::numbers::{decimal, padded_decimal, zero_padded};
use crate::store::{
    open_metadata, opened, read_tag_metadata, Entry, MetadataStore, TagsContent,
};
use crate::text::{
    append_chars, chars_of, has_prefix, lemma_texts_push, lowercase, starts_with, string_of,
    string_of_range, texts, to_lowercase,
};

verus! {

/// The HTML that `mdbook::utils::render_markdown` makes of a Markdown text.
pub uninterp spec fn markdown_html(text: Seq<char>, smart_punctuation: bool) -> Seq<char>;

/// `mdbook::utils::render_markdown`: the HTML made of a Markdown text, a
/// function of the text and of the flag alone, which this library names
/// `markdown_html` and does not spell out.
#[verifier::external_body]
fn render_markdown(text: &str, smart_punctuation: bool) -> (html: String)
    ensures
        html@ == markdown_html(text@, smart_punctuation),
{
    mdbook::utils::render_markdown(text, smart_punctuation)
}

/// A tag as it is shown: without a leading "A-" or "T-", and in lower case.
pub open spec fn shown_tag(tag: Seq<char>) -> Seq<char> {
    if has_prefix(tag, "A-"@) || has_prefix(tag, "T-"@) {
        lowercase(tag.skip(2))
    } else {
        lowercase(tag)
    }
}

/// A tag as it is shown: without a leading "A-" or "T-", and in lower case.
pub fn trim_prefix(t: &String) -> (shown: String)
    ensures
        shown@ == shown_tag(t@),
{
    let chars = chars_of(t.as_str());
    let topic = chars_of("A-");
    let team = chars_of("T-");
    if starts_with(&chars, &topic) || starts_with(&chars, &team) {
        proof {
            reveal_strlit("A-");
            reveal_strlit("T-");
        }
        let rest = string_of_range(&chars, 2, chars.len());
        to_lowercase(rest.as_str())
    } else {
        to_lowercase(t.as_str())
    }
}

/// The texts of a list with `sep` between each two.
pub open spec fn joined(list: Seq<Seq<char>>, sep: Seq<char>) -> Seq<char>
    decreases list.len(),
{
    if list.len() == 0 {
        Seq::empty()
    } else if list.len() == 1 {
        list[0]
    } else {
        joined(list.drop_last(), sep) + sep + list.last()
    }
}

/// Joins the strings of a list, with `sep` between each two.
pub fn join(list: &Vec<String>, sep: &str) -> (s: String)
    ensures
        s@ == joined(texts(list@), sep@),
{
    let sep_chars = chars_of(sep);
    let mut chars: Vec<char> = Vec::new();
    let mut i: usize = 0;
    while i < list.len()
        invariant
            i <= list.len(),
            sep_chars@ == sep@,
            chars@ == joined(texts(list@).take(i as int), sep@),
        decreases list.len() - i,
    {
        proof {
            let next = texts(list@).take(i + 1);
            assert(next.drop_last() == texts(list@).take(i as int));
        }
        if i > 0 {
            append_chars(&mut chars, &sep_chars);
        }
        let item = chars_of(list[i].as_str());
        append_chars(&mut chars, &item);
        i += 1;
    }
    assert(texts(list@).take(i as int) == texts(list@));
    string_of(&chars)
}

/// What the page of one document shows.
pub struct Page {
    /// The document's number, with zeros in front if it has fewer than four digits.
    pub number: Seq<char>,
    /// The record's title; where it has none, the title derived from the file name.
    pub title: Seq<char>,
    /// The name of the page's file: the number as above, and ".html".
    pub url: Seq<char>,
    /// The names of the record's teams.
    pub teams: Seq<Seq<char>>,
    /// The record's tags as they are shown.
    pub tags: Seq<Seq<char>>,
    /// The document's text as HTML.
    pub rfc_text: Seq<char>,
}

/// The title derived from a file name such as "0050-some-title.md": the name
/// without its first five characters and its last three. A name of fewer than
/// eight characters gives none.
pub open spec fn derived_title(filename: Seq<char>) -> Option<Seq<char>> {
    if filename.len() >= 8 {
        Some(filename.subrange(5, filename.len() - 3))
    } else {
        None
    }
}

/// The page of a document, given its record and its text as HTML. There is
/// none, and the error is `Error::Parse`, where the record has no title and
/// none can be derived from the file name.
pub open spec fn page_of(
    number: u64,
    filename: Seq<char>,
    record: Record,
    html: Seq<char>,
) -> Result<Page, Error> {
    let title = match record.title {
        Some(title) => Some(title),
        None => derived_title(filename),
    };
    match title {
        None => Err(Error::Parse),
        Some(title) => Ok(
            Page {
                number: zero_padded(decimal(number as nat), 4),
                title,
                url: zero_padded(decimal(number as nat), 4) + ".html"@,
                teams: record.teams.map_values(|team: Team| team.name()),
                tags: record.tags.map_values(|tag: Seq<char>| shown_tag(tag)),
                rfc_text: html,
            },
        ),
    }
}

/// What the template of a document's page is filled with.
#[derive(Debug)]
pub struct RfcTemplateData {
    pub number: String,
    pub title: String,
    /// The teams' names, with " | " between each two.
    pub teams: String,
    /// The tags as they are shown, with " | " between each two.
    pub tags: String,
    pub rfc_text: String,
}

/// The entry of one document in the index.
#[derive(Debug)]
pub struct IndexElement {
    pub number: String,
    pub title: String,
    pub url: String,
    pub teams: Vec<String>,
    pub tags: Vec<String>,
}

/// Whether the template data are those of the page.
pub open spec fn shows(data: RfcTemplateData, page: Page) -> bool {
    &&& data.number@ == page.number
    &&& data.title@ == page.title
    &&& data.teams@ == joined(page.teams, " | "@)
    &&& data.tags@ == joined(page.tags, " | "@)
    &&& data.rfc_text@ == page.rfc_text
}

/// Whether the index entry is that of the page.
pub open spec fn indexes(element: IndexElement, page: Page) -> bool {
    &&& element.number@ == page.number
    &&& element.title@ == page.title
    &&& element.url@ == page.url
    &&& texts(element.teams@) == page.teams
    &&& texts(element.tags@) == page.tags
}

/// The page of one document: the file it goes to and what its template is
/// filled with.
#[derive(Debug)]
pub struct RfcPage {
    pub url: String,
    pub data: RfcTemplateData,
}

/// Makes the page and the index entry of a document from its record and from
/// its text as HTML. Fails with `Error::Parse` if the record has no title and
/// the file name is too short to derive one.
pub fn rfc_page(rfc: &GhData, metadata: &RfcMetadata, rfc_text: String) -> (r: Result<
    (RfcPage, IndexElement),
    Error,
>)
    ensures
        match page_of(rfc.number, rfc.filename@, metadata@, rfc_text@) {
            Ok(page) => r matches Ok((made, element)) && made.url@ == page.url && shows(
                made.data,
                page,
            ) && indexes(element, page),
            Err(e) => r matches Err(f) && f == e,
        },
{
    let title = match &metadata.title {
        Some(t) => t.clone(),
        None => {
            let name = chars_of(rfc.filename.as_str());
            if name.len() < 8 {
                return Err(Error::Parse);
            }
            string_of_range(&name, 5, name.len() - 3)
        },
    };
    let digits = padded_decimal(rfc.number, 4);
    let number = string_of(&digits);
    let mut url_chars = padded_decimal(rfc.number, 4);
    let ending = chars_of(".html");
    append_chars(&mut url_chars, &ending);
    let url = string_of(&url_chars);
    let ghost page = page_of(rfc.number, rfc.filename@, metadata@, rfc_text@)->Ok_0;
    let mut teams: Vec<String> = Vec::new();
    let mut i: usize = 0;
    while i < metadata.teams.len()
        invariant
            i <= metadata.teams.len(),
            page.teams == metadata@.teams.map_values(|team: Team| team.name()),
            texts(teams@) == page.teams.take(i as int),
        decreases metadata.teams.len() - i,
    {
        let name = metadata.teams[i].to_string();
        proof {
            lemma_texts_push(teams@, name);
        }
        teams.push(name);
        i += 1;
    }
    assert(page.teams.take(i as int) == page.teams);
    let mut tags: Vec<String> = Vec::new();
    let mut j: usize = 0;
    while j < metadata.tags.len()
        invariant
            j <= metadata.tags.len(),
            page.tags == metadata@.tags.map_values(|tag: Seq<char>| shown_tag(tag)),
            texts(tags@) == page.tags.take(j as int),
        decreases metadata.tags.len() - j,
    {
        let shown = trim_prefix(&metadata.tags[j]);
        proof {
            lemma_texts_push(tags@, shown);
        }
        tags.push(shown);
        j += 1;
    }
    assert(page.tags.take(j as int) == page.tags);
    let data = RfcTemplateData {
        number: number.clone(),
        title: title.clone(),
        teams: join(&teams, " | "),
        tags: join(&tags, " | "),
        rfc_text,
    };
    let element = IndexElement { number, title, url: url.clone(), teams, tags };
    Ok((RfcPage { url, data }, element))
}

/// The order of texts: by their first character that differs, compared by
/// code point; a text comes before every text that it begins.
pub open spec fn text_le(a: Seq<char>, b: Seq<char>) -> bool
    decreases a.len(),
{
    if a.len() == 0 {
        true
    } else if b.len() == 0 {
        false
    } else if a[0] != b[0] {
        (a[0] as u32) < (b[0] as u32)
    } else {
        text_le(a.drop_first(), b.drop_first())
    }
}

/// Whether the texts stand in ascending order.
pub open spec fn ascending_texts(list: Seq<Seq<char>>) -> bool {
    forall|i: int, j: int| 0 <= i <= j < list.len() ==> text_le(list[i], list[j])
}

/// `<[String]>::sort`: afterwards the strings stand in ascending order, which
/// for strings is the order of their code points, and their texts are those
/// that were there, each as often as before.
#[verifier::external_body]
fn sort_strings(list: &mut Vec<String>)
    ensures
        ascending_texts(texts(final(list)@)),
        texts(final(list)@).to_multiset() == texts(old(list)@).to_multiset(),
{
    list.sort();
}

/// The documents with the given number, in order.
pub open spec fn with_number(data: Seq<GhData>, number: u64) -> Seq<GhData> {
    data.filter(|d: GhData| d.number == number)
}

/// Whether `sorted` holds the documents of `data` in ascending order of their
/// numbers, those with the same number in the order that they have in `data`.
pub open spec fn sorted_by_number(sorted: Seq<GhData>, data: Seq<GhData>) -> bool {
    &&& forall|i: int, j: int|
        0 <= i <= j < sorted.len() ==> sorted[i].number <= sorted[j].number
    &&& forall|number: u64| #[trigger] with_number(sorted, number) == with_number(data, number)
}

/// `<[T]>::sort_by_key`, with a document's number as the key: afterwards the
/// documents stand in ascending order of their numbers, and those with the
/// same number stand in the order that they had.
#[verifier::external_body]
fn sort_documents(data: &mut Vec<GhData>)
    ensures
        sorted_by_number(final(data)@, old(data)@),
{
    data.sort_by_key(|d| d.number);
}

/// The list of one team in the index.
#[derive(Debug)]
pub struct TeamTemplateData {
    pub name: String,
    pub tags: Vec<String>,
}

/// What the template of the index is filled with.
#[derive(Debug)]
pub struct IndexTemplateData {
    pub rfcs: Vec<IndexElement>,
    pub teams: Vec<TeamTemplateData>,
}

/// The website: the pages of the documents and the index.
#[derive(Debug)]
pub struct Site {
    pub pages: Vec<RfcPage>,
    pub index: IndexTemplateData,
}

/// The teams in the order in which the index lists them.
pub open spec fn index_teams() -> Seq<Team> {
    seq![Team::Core, Team::Lang, Team::Libs, Team::Compiler, Team::Tools, Team::Docs]
}

/// The tags of a team as the index shows them, before they are sorted: none
/// where the team has no list.
pub open spec fn shown_tags(lists: Seq<(Team, Seq<Seq<char>>)>, team: Team) -> Seq<Seq<char>> {
    match team_list(lists, team) {
        Some(list) => list.map_values(|tag: Seq<char>| shown_tag(tag)),
        None => Seq::empty(),
    }
}

/// Whether the entry is that of the team: it has the team's name, and the
/// team's tags as they are shown, in ascending order.
pub open spec fn lists_team(
    entry: TeamTemplateData,
    lists: Seq<(Team, Seq<Seq<char>>)>,
    team: Team,
) -> bool {
    &&& entry.name@ == team.name()
    &&& ascending_texts(texts(entry.tags@))
    &&& texts(entry.tags@).to_multiset() == shown_tags(lists, team).to_multiset()
}

/// The index's list for one team.
pub fn team_entry(tag_metadata: &TagMetadata, team: Team) -> (entry: TeamTemplateData)
    ensures
        lists_team(entry, lists_view(tag_metadata.by_team@), team),
{
    let mut out: Vec<String> = Vec::new();
    let ghost all = lists_view(tag_metadata.by_team@);
    match tag_metadata.tags_of(team) {
        Some(tags) => {
            let ghost shown = shown_tags(all, team);
            let mut i: usize = 0;
            while i < tags.len()
                invariant
                    i <= tags.len(),
                    shown == texts(tags@).map_values(|tag: Seq<char>| shown_tag(tag)),
                    texts(out@) == shown.take(i as int),
                decreases tags.len() - i,
            {
                let tag = trim_prefix(&tags[i]);
                proof {
                    lemma_texts_push(out@, tag);
                }
                out.push(tag);
                i += 1;
            }
            assert(shown.take(i as int) == shown);
        },
        None => {
            assert(texts(out@) =~= Seq::<Seq<char>>::empty());
        },
    }
    sort_strings(&mut out);
    TeamTemplateData { name: team.to_string(), tags: out }
}

/// The pages of the documents, in their order, or the error of the first
/// document that has no page: the one that opening its record gives, or
/// `Error::Parse` where no title can be had.
pub open spec fn pages_of(entries: Seq<Entry>, data: Seq<GhData>) -> Result<Seq<Page>, Error>
    decreases data.len(),
{
    if data.len() == 0 {
        Ok(Seq::empty())
    } else {
        match pages_of(entries, data.drop_last()) {
            Err(e) => Err(e),
            Ok(pages) => match opened(entries, data.last().number) {
                Err(e) => Err(e),
                Ok(record) => match page_of(
                    data.last().number,
                    data.last().filename@,
                    record,
                    markdown_html(data.last().text@, false),
                ) {
                    Err(e) => Err(e),
                    Ok(page) => Ok(pages.push(page)),
                },
            },
        }
    }
}

/// Where the first `k` documents do not all have pages, the error for all
/// documents is the same.
pub proof fn lemma_pages_fail(entries: Seq<Entry>, data: Seq<GhData>, k: int)
    requires
        0 <= k <= data.len(),
        pages_of(entries, data.take(k)) is Err,
    ensures
        pages_of(entries, data) == pages_of(entries, data.take(k)),
    decreases data.len() - k,
{
    if k < data.len() {
        assert(data.take(k + 1).drop_last() == data.take(k));
        lemma_pages_fail(entries, data, k + 1);
    } else {
        assert(data.take(k) == data);
    }
}

/// Whether the website is that of the given pages and lists: it has the
/// pages in order, an index entry for each page, and in the index one list for
/// each team, in the index's order of teams.
pub open spec fn site_shows(site: Site, pages: Seq<Page>, lists: Seq<(Team, Seq<Seq<char>>)>) -> bool {
    &&& site.pages@.len() == pages.len()
    &&& site.index.rfcs@.len() == pages.len()
    &&& forall|i: int|
        0 <= i < pages.len() ==> (#[trigger] site.pages@[i]).url@ == pages[i].url && shows(
            site.pages@[i].data,
            pages[i],
        )
    &&& forall|i: int| 0 <= i < pages.len() ==> indexes(#[trigger] site.index.rfcs@[i], pages[i])
    &&& site.index.teams@.len() == 6
    &&& forall|k: int|
        0 <= k < 6 ==> lists_team(#[trigger] site.index.teams@[k], lists, index_teams()[k])
}

/// Whether `r` is what building the website from the documents, in the order
/// given, comes to.
///
/// Without stored lists it is `Error::FileNotFound`, with unreadable ones
/// `Error::Serialization`. Where a document has no page, it is the error of
/// the first such document. Otherwise it is the website of the documents'
/// pages and of the stored lists.
pub open spec fn site_for(
    r: Result<Site, Error>,
    entries: Seq<Entry>,
    tags: TagsContent,
    data: Seq<GhData>,
) -> bool {
    match tags {
        TagsContent::Missing => r matches Err(e) && e == Error::FileNotFound,
        TagsContent::Unreadable => r matches Err(e) && e == Error::Serialization,
        TagsContent::Lists(lists) => match pages_of(entries, data) {
            Err(e) => r matches Err(f) && f == e,
            Ok(pages) => r matches Ok(site) && site_shows(site, pages, lists),
        },
    }
}

/// Builds the website from the documents, in the order given.
///
/// The dictionary is read from the store; then, for each document, its record
/// is opened and its text made into HTML. The first failure ends the work
/// with its error.
pub fn build_site(store: &MetadataStore, data: &Vec<GhData>) -> (r: Result<Site, Error>)
    ensures
        site_for(r, store.entries(), store.stored_tags()@, data@),
{
    let tag_metadata = match read_tag_metadata(store) {
        Ok(t) => t,
        Err(e) => {
            return Err(e);
        },
    };
    let ghost lists = lists_view(tag_metadata.by_team@);
    let ghost entries = store.entries();
    let mut pages: Vec<RfcPage> = Vec::new();
    let mut rfcs: Vec<IndexElement> = Vec::new();
    let mut i: usize = 0;
    while i < data.len()
        invariant
            i <= data.len(),
            entries == store.entries(),
            store.stored_tags()@ == TagsContent::Lists(lists),
            pages@.len() == i,
            rfcs@.len() == i,
            pages_of(entries, data@.take(i as int)) matches Ok(made) && made.len() == i && (
            forall|k: int|
                0 <= k < i ==> (#[trigger] pages@[k]).url@ == made[k].url && shows(
                    pages@[k].data,
                    made[k],
                )) && (forall|k: int| 0 <= k < i ==> indexes(#[trigger] rfcs@[k], made[k])),
        decreases data.len() - i,
    {
        proof {
            let next = data@.take(i + 1);
            assert(next.drop_last() == data@.take(i as int));
        }
        let rfc = &data[i];
        let metadata = match open_metadata(store, rfc.number) {
            Ok(m) => m,
            Err(e) => {
                proof {
                    lemma_pages_fail(entries, data@, i + 1);
                }
                return Err(e);
            },
        };
        let rfc_text = render_markdown(rfc.text.as_str(), false);
        match rfc_page(rfc, &metadata, rfc_text) {
            Ok((page, element)) => {
                pages.push(page);
                rfcs.push(element);
            },
            Err(e) => {
                proof {
                    lemma_pages_fail(entries, data@, i + 1);
                }
                return Err(e);
            },
        }
        i += 1;
    }
    assert(data@.take(i as int) == data@);
    let mut teams: Vec<TeamTemplateData> = Vec::new();
    teams.push(team_entry(&tag_metadata, Team::Core));
    teams.push(team_entry(&tag_metadata, Team::Lang));
    teams.push(team_entry(&tag_metadata, Team::Libs));
    teams.push(team_entry(&tag_metadata, Team::Compiler));
    teams.push(team_entry(&tag_metadata, Team::Tools));
    teams.push(team_entry(&tag_metadata, Team::Docs));
    Ok(Site { pages, index: IndexTemplateData { rfcs, teams } })
}

/// Builds the website from the documents.
///
/// The documents are put in ascending order of their numbers, those with the
/// same number staying in the order given; the website is then built as
/// `build_site` does.
pub fn generate(store: &MetadataStore, rfc_data: Vec<GhData>) -> (r: Result<Site, Error>)
    ensures
        exists|order: Seq<GhData>|
            sorted_by_number(order, rfc_data@) && #[trigger] site_for(
                r,
                store.entries(),
                store.stored_tags()@,
                order,
            ),
{
    let mut data = rfc_data;
    sort_documents(&mut data);
    let r = build_site(store, &data);
    r
}

} // verus!
