use rfc_index::errors::Error;
use rfc_index::metadata::{RfcMetadata, Team, TeamTags, METADATA_VERSION};
use rfc_index::store::{
    all_metadata, all_metadata_numbers, delete_metadata, metadata_exists, open_metadata,
    read_metadata, read_tag_metadata, record_number_of, save_metadata, supports_version,
    write_tag_metadata, MetadataStore, Stored, StoredTags,
};

fn strings(items: &[&str]) -> Vec<String> {
    items.iter().map(|s| s.to_string()).collect()
}

fn record(number: u64) -> RfcMetadata {
    let mut r = RfcMetadata::new(number, format!("{:0>4}-doc.md", number), "2020-01-01".to_owned());
    r.feature_name = strings(&["feat"]);
    r.issues = strings(&["#1", "#2"]);
    r.title = Some(format!("Title {}", number));
    r.teams = vec![Team::Lang];
    r.tags = strings(&["A-traits"]);
    r
}

fn same(a: &RfcMetadata, b: &RfcMetadata) -> bool {
    a.version == b.version
        && a.number == b.number
        && a.filename == b.filename
        && a.start_date == b.start_date
        && a.feature_name == b.feature_name
        && a.issues == b.issues
        && a.title == b.title
        && a.teams == b.teams
        && a.tags == b.tags
}

#[test]
fn save_then_open_gives_the_record_back() {
    let mut store = MetadataStore::new();
    let r = record(50);
    assert_eq!(save_metadata(&mut store, &r), Ok(()));
    let opened = open_metadata(&store, 50).unwrap();
    assert!(same(&opened, &r));
}

#[test]
fn save_overwrites() {
    let mut store = MetadataStore::new();
    save_metadata(&mut store, &record(50)).unwrap();
    save_metadata(&mut store, &record(51)).unwrap();
    let mut changed = record(50);
    changed.title = Some("Other".to_owned());
    save_metadata(&mut store, &changed).unwrap();
    assert_eq!(open_metadata(&store, 50).unwrap().title, Some("Other".to_owned()));
    assert_eq!(open_metadata(&store, 51).unwrap().title, Some("Title 51".to_owned()));
    assert_eq!(all_metadata_numbers(&store), Ok(vec![50, 51]));
}

#[test]
fn open_of_a_missing_number_is_file_not_found() {
    let mut store = MetadataStore::new();
    assert_eq!(open_metadata(&store, 1).err(), Some(Error::FileNotFound));
    save_metadata(&mut store, &record(2)).unwrap();
    assert_eq!(open_metadata(&store, 1).err(), Some(Error::FileNotFound));
}

#[test]
fn open_of_a_newer_version_is_unsupported() {
    let mut store = MetadataStore::new();
    let mut newer = record(3);
    newer.version = METADATA_VERSION + 1;
    store.store(3, Stored::Record(newer));
    store.store(4, Stored::Version(9));
    assert_eq!(open_metadata(&store, 3).err(), Some(Error::UnsupportedMetadataVersion(2)));
    assert_eq!(open_metadata(&store, 4).err(), Some(Error::UnsupportedMetadataVersion(9)));
}

#[test]
fn open_of_an_older_version_is_accepted() {
    let mut store = MetadataStore::new();
    let mut older = record(3);
    older.version = 0;
    store.store(3, Stored::Record(older));
    assert_eq!(open_metadata(&store, 3).unwrap().version, 0);
}

#[test]
fn open_of_malformed_content_is_a_serialization_error() {
    let mut store = MetadataStore::new();
    store.store(5, Stored::Unreadable);
    store.store(6, Stored::Version(1));
    store.store(7, Stored::Version(0));
    assert_eq!(open_metadata(&store, 5).err(), Some(Error::Serialization));
    assert_eq!(open_metadata(&store, 6).err(), Some(Error::Serialization));
    assert_eq!(open_metadata(&store, 7).err(), Some(Error::Serialization));
}

#[test]
fn read_metadata_checks_the_version_first() {
    assert_eq!(read_metadata(&Stored::Unreadable).err(), Some(Error::Serialization));
    assert_eq!(
        read_metadata(&Stored::Version(2)).err(),
        Some(Error::UnsupportedMetadataVersion(2))
    );
    assert_eq!(read_metadata(&Stored::Version(1)).err(), Some(Error::Serialization));
    assert!(same(&read_metadata(&Stored::Record(record(8))).unwrap(), &record(8)));
}

#[test]
fn exists_does_not_read() {
    let mut store = MetadataStore::new();
    assert_eq!(metadata_exists(&store, 5), Err(Error::FileNotFound));
    store.store(5, Stored::Unreadable);
    assert_eq!(metadata_exists(&store, 5), Ok(()));
    assert_eq!(metadata_exists(&store, 6), Err(Error::FileNotFound));
}

#[test]
fn delete_removes_and_fails_when_absent() {
    let mut store = MetadataStore::new();
    save_metadata(&mut store, &record(1)).unwrap();
    save_metadata(&mut store, &record(2)).unwrap();
    save_metadata(&mut store, &record(3)).unwrap();
    assert_eq!(delete_metadata(&mut store, 2), Ok(()));
    assert_eq!(metadata_exists(&store, 2), Err(Error::FileNotFound));
    assert_eq!(all_metadata_numbers(&store), Ok(vec![1, 3]));
    assert_eq!(delete_metadata(&mut store, 2), Err(Error::FileNotFound));
    assert_eq!(all_metadata_numbers(&store), Ok(vec![1, 3]));
    assert!(same(&open_metadata(&store, 3).unwrap(), &record(3)));
}

#[test]
fn all_metadata_reads_in_order() {
    let mut store = MetadataStore::new();
    assert_eq!(all_metadata(&store).unwrap().len(), 0);
    save_metadata(&mut store, &record(9)).unwrap();
    save_metadata(&mut store, &record(4)).unwrap();
    let all = all_metadata(&store).unwrap();
    assert_eq!(all.len(), 2);
    assert!(same(&all[0], &record(9)));
    assert!(same(&all[1], &record(4)));
}

#[test]
fn all_metadata_fails_on_the_first_unreadable_entry() {
    let mut store = MetadataStore::new();
    save_metadata(&mut store, &record(1)).unwrap();
    store.store(2, Stored::Version(5));
    store.store(3, Stored::Unreadable);
    save_metadata(&mut store, &record(4)).unwrap();
    assert_eq!(all_metadata(&store).err(), Some(Error::UnsupportedMetadataVersion(5)));
    assert_eq!(all_metadata_numbers(&store), Ok(vec![1, 2, 3, 4]));
}

#[test]
fn content_gives_what_is_stored() {
    let mut store = MetadataStore::new();
    store.store(4, Stored::Version(7));
    assert!(matches!(store.content(4), Some(Stored::Version(7))));
    assert!(store.content(5).is_none());
    store.store(4, Stored::Unreadable);
    assert!(matches!(store.content(4), Some(Stored::Unreadable)));
}

#[test]
fn tag_metadata_is_read_from_the_stored_lists() {
    let mut store = MetadataStore::new();
    assert_eq!(read_tag_metadata(&store).err(), Some(Error::FileNotFound));
    store.store_tags(StoredTags::Unreadable);
    assert_eq!(read_tag_metadata(&store).err(), Some(Error::Serialization));
    let lists = vec![
        TeamTags { team: Team::Lang, tags: strings(&["A-traits"]) },
        TeamTags { team: Team::Tools, tags: strings(&["A-cargo", "A-traits"]) },
    ];
    assert_eq!(write_tag_metadata(&mut store, lists), Ok(()));
    let dictionary = read_tag_metadata(&store).unwrap();
    assert_eq!(dictionary.by_team.len(), 2);
    assert_eq!(dictionary.by_team[0].team, Team::Lang);
    assert_eq!(dictionary.by_team[0].tags, strings(&["A-traits"]));
    assert_eq!(dictionary.by_team[1].team, Team::Tools);
    assert_eq!(dictionary.by_team[1].tags, strings(&["A-cargo", "A-traits"]));
    assert!(dictionary.contains_tag(&"A-traits".to_owned()));
    assert!(dictionary.contains_tag(&"A-cargo".to_owned()));
    assert!(!dictionary.contains_tag(&"A-x".to_owned()));
    let entry = dictionary.by_tag.iter().find(|e| e.tag == "A-traits").unwrap();
    assert_eq!(entry.teams, vec![Team::Lang, Team::Tools]);
}

#[test]
fn writing_lists_replaces_them_and_keeps_the_records() {
    let mut store = MetadataStore::new();
    save_metadata(&mut store, &record(1)).unwrap();
    write_tag_metadata(&mut store, vec![TeamTags { team: Team::Lang, tags: strings(&["A-a"]) }])
        .unwrap();
    write_tag_metadata(&mut store, vec![TeamTags { team: Team::Docs, tags: strings(&["A-b"]) }])
        .unwrap();
    let dictionary = read_tag_metadata(&store).unwrap();
    assert!(!dictionary.contains_tag(&"A-a".to_owned()));
    assert!(dictionary.contains_tag(&"A-b".to_owned()));
    assert!(same(&open_metadata(&store, 1).unwrap(), &record(1)));
}

#[test]
fn versions_up_to_the_current_one_are_supported() {
    assert!(supports_version(0));
    assert!(supports_version(METADATA_VERSION));
    assert!(!supports_version(METADATA_VERSION + 1));
    assert!(!supports_version(u64::MAX));
}

#[test]
fn stored_content_is_made_from_what_was_read() {
    assert!(matches!(Stored::from_parts(None, None), Stored::Unreadable));
    assert!(matches!(Stored::from_parts(None, Some(record(1))), Stored::Unreadable));
    assert!(matches!(Stored::from_parts(Some(1), None), Stored::Version(1)));
    assert!(matches!(Stored::from_parts(Some(2), None), Stored::Version(2)));
    assert!(matches!(Stored::from_parts(Some(2), Some(record(1))), Stored::Version(2)));
    match Stored::from_parts(Some(1), Some(record(1))) {
        Stored::Record(r) => assert!(same(&r, &record(1))),
        other => panic!("no record: {:?}", other),
    }
}

#[test]
fn record_files_are_told_by_their_names() {
    assert_eq!(record_number_of("0050.json"), Some(50));
    assert_eq!(record_number_of("0000.json"), Some(0));
    assert_eq!(record_number_of("12345.json"), Some(12345));
    assert_eq!(record_number_of("50.json"), None);
    assert_eq!(record_number_of("00050.json"), None);
    assert_eq!(record_number_of("+050.json"), None);
    assert_eq!(record_number_of("0050.json.bak"), None);
    assert_eq!(record_number_of("0050"), None);
    assert_eq!(record_number_of("tags.json"), None);
    assert_eq!(record_number_of(""), None);
}

#[test]
fn a_record_is_stored_under_its_own_number_only() {
    let mut store = MetadataStore::new();
    store.store(4, Stored::Record(record(5)));
    assert!(matches!(store.content(4), Some(Stored::Unreadable)));
    assert_eq!(open_metadata(&store, 4).err(), Some(Error::Serialization));
    assert_eq!(metadata_exists(&store, 5), Err(Error::FileNotFound));
    store.store(5, Stored::Record(record(5)));
    assert!(same(&open_metadata(&store, 5).unwrap(), &record(5)));
}
