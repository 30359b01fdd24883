use rfc_index::metadata::{RfcMetadata, Team};
use rfc_index::query::{query, stats, Stats};

fn strings(items: &[&str]) -> Vec<String> {
    items.iter().map(|s| s.to_string()).collect()
}

fn records() -> Vec<RfcMetadata> {
    let mut a = RfcMetadata::new(30, "0030-a.md".to_owned(), String::new());
    a.title = Some("A".to_owned());
    a.tags = strings(&["A-x", "A-y"]);
    let mut b = RfcMetadata::new(10, "0010-b.md".to_owned(), String::new());
    b.teams = vec![Team::Lang];
    let mut c = RfcMetadata::new(20, "0020-c.md".to_owned(), String::new());
    c.title = Some("C".to_owned());
    c.teams = vec![Team::Lang, Team::Core];
    c.tags = strings(&["A-y"]);
    let d = RfcMetadata::new(5, "0005-d.md".to_owned(), String::new());
    vec![a, b, c, d]
}

#[test]
fn stats_count_the_records() {
    assert_eq!(stats(&records()), Stats { total: 4, title: 2, teams: 2, one_tag: 2 });
    assert_eq!(stats(&Vec::new()), Stats { total: 0, title: 0, teams: 0, one_tag: 0 });
}

#[test]
fn query_without_filter_gives_all_numbers_sorted() {
    assert_eq!(query(&records(), &None), vec![5, 10, 20, 30]);
}

#[test]
fn query_with_a_tag_gives_the_records_that_have_it() {
    assert_eq!(query(&records(), &Some(Some("A-y".to_owned()))), vec![20, 30]);
    assert_eq!(query(&records(), &Some(Some("A-x".to_owned()))), vec![30]);
    assert_eq!(query(&records(), &Some(Some("A-z".to_owned()))), Vec::<u64>::new());
}

#[test]
fn query_for_no_tag_gives_the_records_without_tags() {
    assert_eq!(query(&records(), &Some(None)), vec![5, 10]);
}

#[test]
fn query_keeps_numbers_that_come_twice() {
    let mut all = records();
    all.push(RfcMetadata::new(10, "0010-e.md".to_owned(), String::new()));
    assert_eq!(query(&all, &None), vec![5, 10, 10, 20, 30]);
}
