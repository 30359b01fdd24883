use rfc_index::commands::{labels_for_scan, labels_for_tag};
use rfc_index::errors::Error;
use rfc_index::github::{GhMetadata, PullRequest, Tracker};
use rfc_index::metadata::{RfcMetadata, Team, TeamTags};
use rfc_index::store::{
    all_metadata_numbers, metadata_exists, open_metadata, read_tag_metadata, save_metadata,
    write_tag_metadata, MetadataStore, Stored, StoredTags,
};
use rfc_index::{
    add_metadata, scan_merged, set_metadata, tag, tag_init, AddFlags, SetFlags, TagScanFlags,
};

fn strings(items: &[&str]) -> Vec<String> {
    items.iter().map(|s| s.to_string()).collect()
}

fn tracker(pulls: &[(u64, Option<&[&str]>)]) -> Tracker {
    let mut t = Tracker::new();
    for (number, labels) in pulls {
        t.pulls.push(PullRequest { number: *number, labels: labels.map(strings) });
    }
    t
}

fn store_with_dictionary() -> MetadataStore {
    let mut store = MetadataStore::new();
    write_tag_metadata(
        &mut store,
        vec![
            TeamTags { team: Team::Lang, tags: strings(&["A-traits"]) },
            TeamTags { team: Team::Libs, tags: strings(&["A-io"]) },
        ],
    )
    .unwrap();
    store
}

fn document(filename: &str, text: &str) -> GhMetadata {
    GhMetadata { filename: filename.to_owned(), text: text.to_owned() }
}

fn add_flags(filename: &str) -> AddFlags {
    AddFlags {
        filename: filename.to_owned(),
        start_date: "2020-01-01".to_owned(),
        feature_name: None,
        issues: None,
        title: None,
    }
}

fn no_changes() -> SetFlags {
    SetFlags { filename: None, start_date: None, feature_name: None, issues: None, title: None }
}

fn snapshot(store: &MetadataStore) -> Vec<(u64, String)> {
    all_metadata_numbers(store)
        .unwrap()
        .into_iter()
        .map(|n| (n, format!("{:?}", store.content(n))))
        .collect()
}

#[test]
fn add_stores_a_new_record() {
    let mut store = MetadataStore::new();
    let flags = AddFlags {
        filename: "0007-x.md".to_owned(),
        start_date: "2019-05-06".to_owned(),
        feature_name: Some("foo, bar".to_owned()),
        issues: Some("N/A".to_owned()),
        title: Some("X".to_owned()),
    };
    assert_eq!(add_metadata(&mut store, 7, false, flags), Ok(()));
    let r = open_metadata(&store, 7).unwrap();
    assert_eq!(r.version, 1);
    assert_eq!(r.number, 7);
    assert_eq!(r.filename, "0007-x.md");
    assert_eq!(r.start_date, "2019-05-06");
    assert_eq!(r.feature_name, strings(&["foo", "bar"]));
    assert!(r.issues.is_empty());
    assert_eq!(r.title, Some("X".to_owned()));
    assert!(r.teams.is_empty());
    assert!(r.tags.is_empty());
}

#[test]
fn add_fails_if_something_is_stored() {
    let mut store = MetadataStore::new();
    add_metadata(&mut store, 7, false, add_flags("0007-a.md")).unwrap();
    assert_eq!(
        add_metadata(&mut store, 7, false, add_flags("0007-b.md")),
        Err(Error::MetadataAlreadyExists)
    );
    assert_eq!(open_metadata(&store, 7).unwrap().filename, "0007-a.md");
    // even where what is stored cannot be read
    store.store(8, Stored::Unreadable);
    assert_eq!(
        add_metadata(&mut store, 8, false, add_flags("0008-b.md")),
        Err(Error::MetadataAlreadyExists)
    );
}

#[test]
fn add_with_force_overwrites() {
    let mut store = MetadataStore::new();
    add_metadata(&mut store, 7, false, add_flags("0007-a.md")).unwrap();
    assert_eq!(add_metadata(&mut store, 7, true, add_flags("0007-b.md")), Ok(()));
    assert_eq!(open_metadata(&store, 7).unwrap().filename, "0007-b.md");
    assert_eq!(add_metadata(&mut store, 9, true, add_flags("0009-c.md")), Ok(()));
    assert_eq!(all_metadata_numbers(&store), Ok(vec![7, 9]));
}

#[test]
fn set_changes_only_the_given_fields() {
    let mut store = MetadataStore::new();
    let mut r = RfcMetadata::new(3, "0003-a.md".to_owned(), "d".to_owned());
    r.feature_name = strings(&["f"]);
    r.issues = strings(&["#1"]);
    r.title = Some("T".to_owned());
    r.teams = vec![Team::Core];
    r.tags = strings(&["A-x"]);
    save_metadata(&mut store, &r).unwrap();

    let flags = SetFlags {
        start_date: Some("e".to_owned()),
        issues: Some("#2; #3".to_owned()),
        ..no_changes()
    };
    assert_eq!(set_metadata(&mut store, 3, flags), Ok(()));
    let r = open_metadata(&store, 3).unwrap();
    assert_eq!(r.filename, "0003-a.md");
    assert_eq!(r.start_date, "e");
    assert_eq!(r.feature_name, strings(&["f"]));
    assert_eq!(r.issues, strings(&["#2", "#3"]));
    assert_eq!(r.title, Some("T".to_owned()));
    assert_eq!(r.teams, vec![Team::Core]);
    assert_eq!(r.tags, strings(&["A-x"]));

    let flags = SetFlags {
        filename: Some("0003-b.md".to_owned()),
        feature_name: Some("g".to_owned()),
        title: Some("U".to_owned()),
        ..no_changes()
    };
    assert_eq!(set_metadata(&mut store, 3, flags), Ok(()));
    let r = open_metadata(&store, 3).unwrap();
    assert_eq!(r.filename, "0003-b.md");
    assert_eq!(r.feature_name, strings(&["g"]));
    assert_eq!(r.title, Some("U".to_owned()));
    assert_eq!(r.start_date, "e");
}

#[test]
fn set_fails_as_open_does() {
    let mut store = MetadataStore::new();
    assert_eq!(set_metadata(&mut store, 3, no_changes()), Err(Error::FileNotFound));
    store.store(3, Stored::Version(4));
    assert_eq!(
        set_metadata(&mut store, 3, no_changes()),
        Err(Error::UnsupportedMetadataVersion(4))
    );
    store.store(3, Stored::Unreadable);
    assert_eq!(set_metadata(&mut store, 3, no_changes()), Err(Error::Serialization));
}

#[test]
fn scan_merged_end_to_end() {
    let mut store = store_with_dictionary();
    let documents = vec![document(
        "0050-foo.md",
        "- Start Date: 2020-01-01\n- RFC PR: #1234\n\n# Summary\n",
    )];
    let t = tracker(&[(50, Some(&["T-lang", "A-traits"]))]);
    assert_eq!(scan_merged(&mut store, &documents, &t, false), Ok(()));
    let r = open_metadata(&store, 50).unwrap();
    assert_eq!(r.number, 50);
    assert_eq!(r.start_date, "2020-01-01");
    assert_eq!(r.teams, vec![Team::Lang]);
    assert_eq!(r.tags, strings(&["A-traits"]));
    assert_eq!(r.filename, "0050-foo.md");
    assert_eq!(r.version, 1);
}

#[test]
fn scan_merged_twice_changes_nothing() {
    let mut store = store_with_dictionary();
    let documents = vec![
        document("0001-a.md", "- Start Date: a\n"),
        document("0002-b.md", "- Start Date: b\n- Feature Name: f\n"),
        document("0001-again.md", "- Start Date: c\n"),
    ];
    let t = tracker(&[(1, Some(&["T-lang"])), (2, Some(&["A-io", "T-libs"]))]);
    assert_eq!(scan_merged(&mut store, &documents, &t, false), Ok(()));
    let first = snapshot(&store);
    assert_eq!(first.len(), 2);
    assert_eq!(open_metadata(&store, 1).unwrap().start_date, "a");
    assert_eq!(scan_merged(&mut store, &documents, &t, false), Ok(()));
    assert_eq!(snapshot(&store), first);
    // even with other labels and texts, what is stored is passed over
    let other = tracker(&[(1, Some(&["T-core"])), (2, None)]);
    assert_eq!(scan_merged(&mut store, &documents, &other, false), Ok(()));
    assert_eq!(snapshot(&store), first);
}

#[test]
fn scan_merged_passes_over_stored_numbers_unless_forced() {
    let mut store = store_with_dictionary();
    let mut old = RfcMetadata::new(1, "0001-old.md".to_owned(), "old".to_owned());
    old.title = Some("kept".to_owned());
    save_metadata(&mut store, &old).unwrap();
    let documents = vec![document("0001-a.md", "- Start Date: new\n")];
    let t = tracker(&[(1, Some(&["T-lang"]))]);
    assert_eq!(scan_merged(&mut store, &documents, &t, false), Ok(()));
    assert_eq!(open_metadata(&store, 1).unwrap().start_date, "old");
    assert_eq!(scan_merged(&mut store, &documents, &t, true), Ok(()));
    let r = open_metadata(&store, 1).unwrap();
    assert_eq!(r.start_date, "new");
    assert_eq!(r.title, None);
    assert_eq!(r.teams, vec![Team::Lang]);
}

#[test]
fn scan_merged_stops_at_the_first_error() {
    let mut store = store_with_dictionary();
    let documents = vec![
        document("0001-a.md", "- Start Date: a\n"),
        document("0002-b.md", "- Start Date: b\n"),
        document("0003-c.md", "- Start Date: c\n"),
    ];
    let t = tracker(&[(1, Some(&[])), (3, Some(&[]))]);
    assert_eq!(scan_merged(&mut store, &documents, &t, false), Err(Error::GitHub));
    assert_eq!(all_metadata_numbers(&store), Ok(vec![1]));
    // the second run ends in the same way and changes nothing
    let first = snapshot(&store);
    assert_eq!(scan_merged(&mut store, &documents, &t, false), Err(Error::GitHub));
    assert_eq!(snapshot(&store), first);

    let mut store = store_with_dictionary();
    let documents = vec![document("0001-a.md", "- oops\n"), document("0002-b.md", "")];
    let all = tracker(&[(1, Some(&[])), (2, Some(&[]))]);
    assert_eq!(scan_merged(&mut store, &documents, &all, false), Err(Error::Parse));
    assert_eq!(all_metadata_numbers(&store), Ok(vec![]));

    let documents = vec![document("README.md", "")];
    assert_eq!(scan_merged(&mut store, &documents, &all, false), Err(Error::Parse));
}

#[test]
fn scan_merged_needs_the_dictionary() {
    let mut store = MetadataStore::new();
    let documents = vec![document("0001-a.md", "")];
    let t = tracker(&[(1, Some(&[]))]);
    assert_eq!(scan_merged(&mut store, &documents, &t, false), Err(Error::FileNotFound));
    store.store_tags(StoredTags::Unreadable);
    assert_eq!(scan_merged(&mut store, &documents, &t, true), Err(Error::Serialization));
    assert_eq!(metadata_exists(&store, 1), Err(Error::FileNotFound));
}

#[test]
fn scan_flags_are_read_from_text() {
    assert_eq!(TagScanFlags::from_str(""), Ok(TagScanFlags::Default));
    assert_eq!(TagScanFlags::from_str("all"), Ok(TagScanFlags::All));
    assert_eq!(TagScanFlags::from_str("ALL"), Err(Error::ParseArg("ALL".to_owned())));
    assert_eq!(TagScanFlags::from_str("x"), Err(Error::ParseArg("x".to_owned())));
    assert_eq!(TagScanFlags::default(), TagScanFlags::Default);
}

fn tagged_store() -> MetadataStore {
    let mut store = store_with_dictionary();
    let mut a = RfcMetadata::new(1, "0001-a.md".to_owned(), String::new());
    a.teams = vec![Team::Docs];
    a.tags = strings(&["mine"]);
    save_metadata(&mut store, &a).unwrap();
    let b = RfcMetadata::new(2, "0002-b.md".to_owned(), String::new());
    save_metadata(&mut store, &b).unwrap();
    let mut c = RfcMetadata::new(3, "0003-c.md".to_owned(), String::new());
    c.teams = vec![Team::Core];
    save_metadata(&mut store, &c).unwrap();
    store
}

#[test]
fn adding_a_tag_twice_does_not_duplicate_it() {
    let mut store = tagged_store();
    let t = tracker(&[]);
    let none: Vec<String> = Vec::new();
    assert_eq!(tag(&mut store, &none, &t, vec![1, 2], Some("A-new".to_owned()), None, false), Ok(()));
    assert_eq!(open_metadata(&store, 1).unwrap().tags, strings(&["mine", "A-new"]));
    assert_eq!(open_metadata(&store, 2).unwrap().tags, strings(&["A-new"]));
    assert!(open_metadata(&store, 3).unwrap().tags.is_empty());
    let first = snapshot(&store);
    assert_eq!(tag(&mut store, &none, &t, vec![1, 2], Some("A-new".to_owned()), None, false), Ok(()));
    assert_eq!(snapshot(&store), first);
    assert_eq!(tag(&mut store, &none, &t, vec![1], Some("mine".to_owned()), None, false), Ok(()));
    assert_eq!(snapshot(&store), first);
}

#[test]
fn tag_without_numbers_takes_all_records() {
    let mut store = tagged_store();
    let t = tracker(&[]);
    let none: Vec<String> = Vec::new();
    assert_eq!(tag(&mut store, &none, &t, Vec::new(), Some("A-all".to_owned()), None, false), Ok(()));
    for n in [1, 2, 3] {
        assert!(open_metadata(&store, n).unwrap().tags.contains(&"A-all".to_owned()));
    }
}

#[test]
fn default_scan_refreshes_only_empty_fields() {
    let mut store = tagged_store();
    let t = tracker(&[
        (1, Some(&["T-lang", "A-traits"])),
        (2, Some(&["T-lang", "A-traits"])),
        (3, Some(&["T-lang", "A-traits", "A-io"])),
    ]);
    let none: Vec<String> = Vec::new();
    assert_eq!(tag(&mut store, &none, &t, Vec::new(), None, Some(None), false), Ok(()));
    let a = open_metadata(&store, 1).unwrap();
    assert_eq!(a.teams, vec![Team::Docs]);
    assert_eq!(a.tags, strings(&["mine"]));
    let b = open_metadata(&store, 2).unwrap();
    assert_eq!(b.teams, vec![Team::Lang]);
    assert_eq!(b.tags, strings(&["A-traits"]));
    let c = open_metadata(&store, 3).unwrap();
    assert_eq!(c.teams, vec![Team::Core]);
    assert_eq!(c.tags, strings(&["A-traits", "A-io"]));

    let mut store = tagged_store();
    assert_eq!(
        tag(&mut store, &none, &t, vec![2], None, Some(Some(TagScanFlags::Default)), false),
        Ok(())
    );
    assert_eq!(open_metadata(&store, 2).unwrap().teams, vec![Team::Lang]);
}

#[test]
fn a_tag_that_was_just_added_counts_as_content() {
    let mut store = tagged_store();
    let t = tracker(&[(2, Some(&["T-lang", "A-traits"]))]);
    let none: Vec<String> = Vec::new();
    assert_eq!(tag(&mut store, &none, &t, vec![2], Some("A-x".to_owned()), Some(None), false), Ok(()));
    let b = open_metadata(&store, 2).unwrap();
    assert_eq!(b.tags, strings(&["A-x"]));
    assert_eq!(b.teams, vec![Team::Lang]);
}

#[test]
fn full_scan_overwrites_both_fields() {
    let mut store = tagged_store();
    let t = tracker(&[
        (1, Some(&["T-lang", "A-traits"])),
        (2, Some(&["T-lang", "A-traits"])),
        (3, Some(&["A-unknown"])),
    ]);
    let none: Vec<String> = Vec::new();
    assert_eq!(
        tag(&mut store, &none, &t, Vec::new(), None, Some(Some(TagScanFlags::All)), false),
        Ok(())
    );
    let a = open_metadata(&store, 1).unwrap();
    assert_eq!(a.teams, vec![Team::Lang]);
    assert_eq!(a.tags, strings(&["A-traits"]));
    assert_eq!(a.filename, "0001-a.md");
    let b = open_metadata(&store, 2).unwrap();
    assert_eq!(b.teams, vec![Team::Lang]);
    assert_eq!(b.tags, strings(&["A-traits"]));
    // what the labels do not give is gone
    let c = open_metadata(&store, 3).unwrap();
    assert!(c.teams.is_empty());
    assert!(c.tags.is_empty());
}

#[test]
fn full_scan_keeps_the_tag_that_the_same_update_adds() {
    let mut store = tagged_store();
    let t = tracker(&[(1, Some(&["T-lang", "A-traits", "A-io"]))]);
    let none: Vec<String> = Vec::new();
    assert_eq!(
        tag(
            &mut store,
            &none,
            &t,
            vec![1],
            Some("A-io".to_owned()),
            Some(Some(TagScanFlags::All)),
            false
        ),
        Ok(())
    );
    let a = open_metadata(&store, 1).unwrap();
    assert_eq!(a.teams, vec![Team::Lang]);
    assert_eq!(a.tags, strings(&["A-io", "A-traits"]));
}

#[test]
fn full_scan_that_fails_changes_nothing() {
    let mut store = tagged_store();
    let t = tracker(&[(1, None)]);
    let none: Vec<String> = Vec::new();
    assert_eq!(
        tag(&mut store, &none, &t, vec![1], None, Some(Some(TagScanFlags::All)), false),
        Err(Error::GitHub)
    );
    let a = open_metadata(&store, 1).unwrap();
    assert_eq!(a.teams, vec![Team::Docs]);
    assert_eq!(a.tags, strings(&["mine"]));
}

#[test]
fn default_scan_of_a_full_record_asks_nothing() {
    let mut store = tagged_store();
    let t = tracker(&[]);
    let none: Vec<String> = Vec::new();
    assert_eq!(tag(&mut store, &none, &t, vec![1], None, Some(None), false), Ok(()));
    assert_eq!(tag(&mut store, &none, &t, vec![2], None, Some(None), false), Err(Error::GitHub));
    assert_eq!(
        tag(&mut store, &none, &t, vec![1], None, Some(Some(TagScanFlags::All)), false),
        Err(Error::GitHub)
    );
}

#[test]
fn tag_stops_at_the_first_error() {
    let mut store = tagged_store();
    let t = tracker(&[]);
    let none: Vec<String> = Vec::new();
    assert_eq!(
        tag(&mut store, &none, &t, vec![1, 9, 2], Some("A-z".to_owned()), None, false),
        Err(Error::FileNotFound)
    );
    assert_eq!(open_metadata(&store, 1).unwrap().tags, strings(&["mine", "A-z"]));
    assert!(open_metadata(&store, 2).unwrap().tags.is_empty());
}

#[test]
fn tag_scan_needs_the_dictionary() {
    let mut store = MetadataStore::new();
    save_metadata(&mut store, &RfcMetadata::new(1, "0001-a.md".to_owned(), String::new())).unwrap();
    let t = tracker(&[(1, Some(&["T-lang"]))]);
    let none: Vec<String> = Vec::new();
    assert_eq!(tag(&mut store, &none, &t, vec![1], None, Some(None), false), Err(Error::FileNotFound));
    assert_eq!(tag(&mut store, &none, &t, vec![1], Some("A-x".to_owned()), None, false), Ok(()));
}

#[test]
fn tag_init_replaces_the_dictionary() {
    let mut store = tagged_store();
    let names = strings(&["0001-a.md", "0002-b.md"]);
    let t = tracker(&[(1, Some(&["T-compiler", "A-llvm"])), (2, Some(&["T-doc", "A-book", "A-llvm"]))]);
    let before = snapshot(&store);
    assert_eq!(tag(&mut store, &names, &t, vec![1], Some("A-x".to_owned()), Some(None), true), Ok(()));
    assert_eq!(snapshot(&store), before);
    let dictionary = read_tag_metadata(&store).unwrap();
    assert_eq!(dictionary.by_team.len(), 6);
    assert_eq!(dictionary.tags_of(Team::Compiler), Some(&strings(&["A-llvm"])));
    assert_eq!(dictionary.tags_of(Team::Docs), Some(&strings(&["A-book", "A-llvm"])));
    assert_eq!(dictionary.tags_of(Team::Lang), Some(&Vec::new()));
    assert!(!dictionary.contains_tag(&"A-traits".to_owned()));

    let bad = tracker(&[(1, Some(&[]))]);
    assert_eq!(tag_init(&mut store, &names, &bad), Err(Error::GitHub));
    assert!(read_tag_metadata(&store).unwrap().contains_tag(&"A-llvm".to_owned()));
}

#[test]
fn a_scan_asks_for_the_documents_without_records() {
    let store = tagged_store();
    let documents = vec![
        document("0003-c.md", ""),
        document("0009-new.md", ""),
        document("README.md", ""),
        document("0007-other.md", ""),
        document("0009-again.md", ""),
    ];
    assert_eq!(labels_for_scan(&store, &documents, false), vec![9, 7, 9]);
    assert_eq!(labels_for_scan(&store, &documents, true), vec![3, 9, 7, 9]);
    assert_eq!(labels_for_scan(&store, &Vec::new(), true), Vec::<u64>::new());
}

#[test]
fn a_tag_update_asks_only_where_a_field_is_refreshed() {
    let store = tagged_store();
    let all = Some(Some(TagScanFlags::All));
    // record 1 has teams and tags, record 2 has neither, record 3 has teams only
    assert_eq!(labels_for_tag(&store, &Vec::new(), &None, None), Vec::<u64>::new());
    assert_eq!(labels_for_tag(&store, &Vec::new(), &None, Some(None)), vec![2, 3]);
    assert_eq!(labels_for_tag(&store, &vec![3, 1, 3, 8], &None, Some(None)), vec![3, 3]);
    assert_eq!(
        labels_for_tag(&store, &Vec::new(), &Some("A-x".to_owned()), Some(None)),
        vec![2]
    );
    assert_eq!(labels_for_tag(&store, &Vec::new(), &None, all), vec![1, 2, 3]);
    assert_eq!(labels_for_tag(&store, &vec![8, 1], &None, all), vec![1]);
}

#[test]
fn labels_that_are_not_asked_for_do_not_matter() {
    let full = tracker(&[
        (1, Some(&["T-core"])),
        (2, Some(&["T-lang", "A-traits"])),
        (3, Some(&["A-io"])),
    ]);
    let mut first = tagged_store();
    let wanted = labels_for_tag(&first, &Vec::new(), &None, Some(None));
    let mut asked = Tracker::new();
    for number in wanted {
        let labels = full.fetch_labels(number).ok().cloned();
        asked.pulls.push(PullRequest { number, labels });
    }
    let none: Vec<String> = Vec::new();
    let mut second = tagged_store();
    assert_eq!(tag(&mut first, &none, &full, Vec::new(), None, Some(None), false), Ok(()));
    assert_eq!(tag(&mut second, &none, &asked, Vec::new(), None, Some(None), false), Ok(()));
    assert_eq!(snapshot(&first), snapshot(&second));
}
