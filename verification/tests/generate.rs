use rfc_index::errors::Error;
use rfc_index::generate::{build_site, generate, join, rfc_page, team_entry, trim_prefix};
use rfc_index::github::GhData;
use rfc_index::metadata::{RfcMetadata, TagMetadata, Team, TeamTags};
use rfc_index::store::{save_metadata, write_tag_metadata, MetadataStore, Stored};

fn strings(items: &[&str]) -> Vec<String> {
    items.iter().map(|s| s.to_string()).collect()
}

fn data(number: u64, filename: &str, text: &str) -> GhData {
    GhData { number, filename: filename.to_owned(), text: text.to_owned() }
}

fn store() -> MetadataStore {
    let mut store = MetadataStore::new();
    write_tag_metadata(
        &mut store,
        vec![
            TeamTags { team: Team::Lang, tags: strings(&["A-Traits", "T-lang-sub", "A-macros", "zeta"]) },
            TeamTags { team: Team::Docs, tags: strings(&[]) },
        ],
    )
    .unwrap();
    let mut a = RfcMetadata::new(50, "0050-foo-bar.md".to_owned(), String::new());
    a.teams = vec![Team::Lang, Team::Compiler];
    a.tags = strings(&["A-Traits", "plain"]);
    save_metadata(&mut store, &a).unwrap();
    let mut b = RfcMetadata::new(7, "0007-x.md".to_owned(), String::new());
    b.title = Some("Seven".to_owned());
    save_metadata(&mut store, &b).unwrap();
    store
}

#[test]
fn trim_prefix_strips_and_lower_cases() {
    assert_eq!(trim_prefix(&"A-Traits".to_owned()), "traits");
    assert_eq!(trim_prefix(&"T-Lang".to_owned()), "lang");
    assert_eq!(trim_prefix(&"Custom".to_owned()), "custom");
    assert_eq!(trim_prefix(&"a-lower".to_owned()), "a-lower");
    assert_eq!(trim_prefix(&"A-".to_owned()), "");
    assert_eq!(trim_prefix(&"".to_owned()), "");
    assert_eq!(trim_prefix(&"A".to_owned()), "a");
}

#[test]
fn join_puts_the_separator_between() {
    assert_eq!(join(&strings(&[]), " | "), "");
    assert_eq!(join(&strings(&["a"]), " | "), "a");
    assert_eq!(join(&strings(&["a", "b", "c"]), " | "), "a | b | c");
    assert_eq!(join(&strings(&["", ""]), ","), ",");
}

#[test]
fn page_is_made_from_the_record() {
    let mut r = RfcMetadata::new(50, "0050-foo-bar.md".to_owned(), String::new());
    r.teams = vec![Team::Lang, Team::Compiler];
    r.tags = strings(&["A-Traits", "plain"]);
    let (page, element) =
        rfc_page(&data(50, "0050-foo-bar.md", "text"), &r, "<p>text</p>".to_owned()).unwrap();
    assert_eq!(page.url, "0050.html");
    assert_eq!(page.data.number, "0050");
    assert_eq!(page.data.title, "foo-bar");
    assert_eq!(page.data.teams, "lang | compiler");
    assert_eq!(page.data.tags, "traits | plain");
    assert_eq!(page.data.rfc_text, "<p>text</p>");
    assert_eq!(element.number, "0050");
    assert_eq!(element.title, "foo-bar");
    assert_eq!(element.url, "0050.html");
    assert_eq!(element.teams, strings(&["lang", "compiler"]));
    assert_eq!(element.tags, strings(&["traits", "plain"]));
}

#[test]
fn page_takes_the_title_of_the_record() {
    let mut r = RfcMetadata::new(12345, "x".to_owned(), String::new());
    r.title = Some("Given".to_owned());
    let (page, element) = rfc_page(&data(12345, "x", ""), &r, String::new()).unwrap();
    assert_eq!(page.data.title, "Given");
    assert_eq!(page.data.number, "12345");
    assert_eq!(element.url, "12345.html");
    assert_eq!(page.data.teams, "");
}

#[test]
fn page_needs_a_title() {
    let r = RfcMetadata::new(1, "0001.md".to_owned(), String::new());
    assert_eq!(rfc_page(&data(1, "0001.md", ""), &r, String::new()).err(), Some(Error::Parse));
    let (page, _) = rfc_page(&data(1, "0001-.md", ""), &r, String::new()).unwrap();
    assert_eq!(page.data.title, "");
}

#[test]
fn team_entry_sorts_the_shown_tags() {
    let dictionary = TagMetadata::new(vec![TeamTags {
        team: Team::Lang,
        tags: strings(&["A-Traits", "T-lang-sub", "A-macros", "zeta", "A-Ábc"]),
    }]);
    let entry = team_entry(&dictionary, Team::Lang);
    assert_eq!(entry.name, "lang");
    assert_eq!(entry.tags, strings(&["lang-sub", "macros", "traits", "zeta", "ábc"]));
    let entry = team_entry(&dictionary, Team::Core);
    assert_eq!(entry.name, "core");
    assert!(entry.tags.is_empty());
}

#[test]
fn site_has_pages_in_order_of_numbers() {
    let documents = vec![
        data(50, "0050-foo-bar.md", "# Fifty\n\nSome *text*.\n"),
        data(7, "0007-x.md", "seven"),
    ];
    let site = generate(&store(), documents).unwrap();
    assert_eq!(site.pages.len(), 2);
    assert_eq!(site.pages[0].url, "0007.html");
    assert_eq!(site.pages[0].data.title, "Seven");
    assert_eq!(site.pages[0].data.rfc_text, "<p>seven</p>\n");
    assert_eq!(site.pages[1].url, "0050.html");
    assert_eq!(site.pages[1].data.title, "foo-bar");
    assert!(site.pages[1].data.rfc_text.contains("<em>text</em>"));
    assert!(site.pages[1].data.rfc_text.contains("Fifty</a></h1>") || site.pages[1].data.rfc_text.contains("<h1"));
    assert_eq!(site.index.rfcs.len(), 2);
    assert_eq!(site.index.rfcs[0].number, "0007");
    assert_eq!(site.index.rfcs[1].tags, strings(&["traits", "plain"]));
    let names: Vec<&str> = site.index.teams.iter().map(|t| t.name.as_str()).collect();
    assert_eq!(names, vec!["core", "lang", "libs", "compiler", "tools", "docs"]);
    assert_eq!(site.index.teams[1].tags, strings(&["lang-sub", "macros", "traits", "zeta"]));
    assert!(site.index.teams[0].tags.is_empty());
}

#[test]
fn documents_with_one_number_keep_their_order() {
    let mut store = store();
    let mut c = RfcMetadata::new(8, "0008-y.md".to_owned(), String::new());
    c.title = Some("Eight".to_owned());
    save_metadata(&mut store, &c).unwrap();
    let documents = vec![
        data(8, "0008-y.md", "first"),
        data(50, "0050-foo-bar.md", "x"),
        data(8, "0008-y.md", "second"),
        data(7, "0007-x.md", "y"),
    ];
    let site = generate(&store, documents).unwrap();
    let texts: Vec<&str> = site.pages.iter().map(|p| p.data.rfc_text.as_str()).collect();
    assert_eq!(texts, vec!["<p>y</p>\n", "<p>first</p>\n", "<p>second</p>\n", "<p>x</p>\n"]);
}

#[test]
fn build_site_keeps_the_given_order() {
    let documents = vec![data(50, "0050-foo-bar.md", "a"), data(7, "0007-x.md", "b")];
    let site = build_site(&store(), &documents).unwrap();
    assert_eq!(site.pages[0].url, "0050.html");
    assert_eq!(site.pages[1].url, "0007.html");
}

#[test]
fn site_fails_with_the_first_error() {
    let documents = vec![data(7, "0007-x.md", ""), data(9, "0009-z.md", "")];
    assert_eq!(generate(&store(), documents).err(), Some(Error::FileNotFound));
    let mut with_newer = store();
    with_newer.store(9, Stored::Version(3));
    let documents = vec![data(9, "0009-z.md", ""), data(10, "0010-w.md", "")];
    assert_eq!(
        generate(&with_newer, documents).err(),
        Some(Error::UnsupportedMetadataVersion(3))
    );
    let mut no_lists = MetadataStore::new();
    assert_eq!(generate(&no_lists, Vec::new()).err(), Some(Error::FileNotFound));
    write_tag_metadata(&mut no_lists, Vec::new()).unwrap();
    let site = generate(&no_lists, Vec::new()).unwrap();
    assert!(site.pages.is_empty());
    assert_eq!(site.index.teams.len(), 6);
}
