use rfc_index::errors::Error;
use rfc_index::metadata::{RfcMetadata, TagMetadata, Team, TeamTags, METADATA_VERSION};

fn strings(items: &[&str]) -> Vec<String> {
    items.iter().map(|s| s.to_string()).collect()
}

fn teams_of_tag(dictionary: &TagMetadata, tag: &str) -> Option<Vec<Team>> {
    dictionary
        .by_tag
        .iter()
        .find(|entry| entry.tag == tag)
        .map(|entry| entry.teams.clone())
}

const ALL_TEAMS: [Team; 6] = [
    Team::Lang,
    Team::Libs,
    Team::Core,
    Team::Tools,
    Team::Compiler,
    Team::Docs,
];

#[test]
fn team_from_str_reads_the_six_names() {
    assert_eq!(Team::from_str("t-lang"), Ok(Team::Lang));
    assert_eq!(Team::from_str("t-libs"), Ok(Team::Libs));
    assert_eq!(Team::from_str("t-core"), Ok(Team::Core));
    assert_eq!(Team::from_str("t-tools"), Ok(Team::Tools));
    assert_eq!(Team::from_str("t-compiler"), Ok(Team::Compiler));
    assert_eq!(Team::from_str("t-docs"), Ok(Team::Docs));
}

#[test]
fn team_from_str_refuses_other_text() {
    assert_eq!(Team::from_str("lang"), Err(Error::ParseTag("lang".to_owned())));
    assert_eq!(Team::from_str("T-lang"), Err(Error::ParseTag("T-lang".to_owned())));
    assert_eq!(Team::from_str(""), Err(Error::ParseTag(String::new())));
}

#[test]
fn team_to_string_is_lower_case() {
    assert_eq!(Team::Lang.to_string(), "lang");
    assert_eq!(Team::Libs.to_string(), "libs");
    assert_eq!(Team::Core.to_string(), "core");
    assert_eq!(Team::Tools.to_string(), "tools");
    assert_eq!(Team::Compiler.to_string(), "compiler");
    assert_eq!(Team::Docs.to_string(), "docs");
}

#[test]
fn new_record_is_empty_and_current() {
    let r = RfcMetadata::new(50, "0050-foo.md".to_owned(), "2020-01-01".to_owned());
    assert_eq!(r.version, METADATA_VERSION);
    assert_eq!(r.version, 1);
    assert_eq!(r.number, 50);
    assert_eq!(r.filename, "0050-foo.md");
    assert_eq!(r.start_date, "2020-01-01");
    assert!(r.feature_name.is_empty());
    assert!(r.issues.is_empty());
    assert_eq!(r.title, None);
    assert!(r.teams.is_empty());
    assert!(r.tags.is_empty());
}

#[test]
fn clone_keeps_every_field() {
    let mut r = RfcMetadata::new(7, "0007-x.md".to_owned(), "d".to_owned());
    r.feature_name = strings(&["f", "g"]);
    r.issues = strings(&["#1"]);
    r.title = Some("T".to_owned());
    r.teams = vec![Team::Core, Team::Docs];
    r.tags = strings(&["A-x"]);
    let c = r.clone();
    assert_eq!(c.version, r.version);
    assert_eq!(c.number, 7);
    assert_eq!(c.filename, "0007-x.md");
    assert_eq!(c.start_date, "d");
    assert_eq!(c.feature_name, strings(&["f", "g"]));
    assert_eq!(c.issues, strings(&["#1"]));
    assert_eq!(c.title, Some("T".to_owned()));
    assert_eq!(c.teams, vec![Team::Core, Team::Docs]);
    assert_eq!(c.tags, strings(&["A-x"]));
}

#[test]
fn by_tag_is_the_inverse_of_by_team() {
    let lists = vec![
        TeamTags { team: Team::Lang, tags: strings(&["A-traits", "A-macros"]) },
        TeamTags { team: Team::Libs, tags: strings(&["A-traits", "A-io"]) },
        TeamTags { team: Team::Docs, tags: strings(&[]) },
    ];
    let dictionary = TagMetadata::new(lists);
    assert_eq!(dictionary.by_team.len(), 3);
    assert_eq!(teams_of_tag(&dictionary, "A-traits"), Some(vec![Team::Lang, Team::Libs]));
    assert_eq!(teams_of_tag(&dictionary, "A-macros"), Some(vec![Team::Lang]));
    assert_eq!(teams_of_tag(&dictionary, "A-io"), Some(vec![Team::Libs]));
    assert_eq!(teams_of_tag(&dictionary, "A-none"), None);
    assert_eq!(dictionary.by_tag.len(), 3);

    // every tag of by_tag is listed by exactly the teams it names
    for entry in &dictionary.by_tag {
        for team in ALL_TEAMS {
            let listed = dictionary
                .tags_of(team)
                .map(|tags| tags.contains(&entry.tag))
                .unwrap_or(false);
            assert_eq!(entry.teams.contains(&team), listed);
        }
    }
    // every listed tag is a tag of by_tag
    for team in ALL_TEAMS {
        if let Some(tags) = dictionary.tags_of(team) {
            for tag in tags {
                assert!(dictionary.contains_tag(tag));
            }
        }
    }
}

#[test]
fn the_last_list_of_a_team_counts() {
    let lists = vec![
        TeamTags { team: Team::Lang, tags: strings(&["A-old"]) },
        TeamTags { team: Team::Lang, tags: strings(&["A-new"]) },
    ];
    let dictionary = TagMetadata::new(lists);
    assert_eq!(dictionary.tags_of(Team::Lang), Some(&strings(&["A-new"])));
    assert!(dictionary.contains_tag(&"A-new".to_owned()));
    assert!(!dictionary.contains_tag(&"A-old".to_owned()));
    assert_eq!(dictionary.tags_of(Team::Core), None);
}

#[test]
fn a_tag_listed_twice_names_its_team_once() {
    let lists = vec![TeamTags { team: Team::Core, tags: strings(&["A-x", "A-x"]) }];
    let dictionary = TagMetadata::new(lists);
    assert_eq!(teams_of_tag(&dictionary, "A-x"), Some(vec![Team::Core]));
}

#[test]
fn empty_lists_give_an_empty_dictionary() {
    let dictionary = TagMetadata::new(Vec::new());
    assert!(dictionary.by_tag.is_empty());
    assert!(dictionary.by_team.is_empty());
    assert!(!dictionary.contains_tag(&"A-x".to_owned()));
}
