use kakidashi::models::{Author, Work, WorkLink, WorkRecord};
use kakidashi::records::{
    assemble, copy_record, dedup_records, finish, record_before_or_same, row, same_record,
    sort_records, Run,
};

fn record(author: &str, title: &str, text: &str, url: Option<&str>) -> WorkRecord {
    WorkRecord {
        author: author.to_string(),
        title: title.to_string(),
        text: text.to_string(),
        url: url.map(String::from),
    }
}

fn std_sorted(records: &[WorkRecord]) -> Vec<WorkRecord> {
    let mut sorted = records.to_vec();
    sorted.sort_by(|a, b| {
        (&a.author, &a.title, &a.text, &a.url).cmp(&(&b.author, &b.title, &b.text, &b.url))
    });
    sorted
}

fn sample() -> Vec<WorkRecord> {
    vec![
        record("夏目漱石", "坊っちゃん", "親譲りの無鉄砲で。", Some("https://b")),
        record("芥川竜之介", "羅生門", "ある日の暮方の事である。", None),
        record("夏目漱石", "こころ", "私はその人を常に先生と呼んでいた。", Some("https://a")),
        record("夏目漱石", "こころ", "私はその人を常に先生と呼んでいた。", None),
        record("夏目漱石", "こころ", "", Some("https://a")),
        record("Abe", "Z", "", None),
        record("Ab", "z", "", None),
        record("", "", "", None),
        record("夏目漱石", "こころ", "私はその人を常に先生と呼んでいた。", Some("https://a")),
        record("夏目漱石", "こころ", "私はその人を常に先生と呼んでいた。", Some("")),
        record("𠮷田", "a", "", None),
        record("ｱ", "a", "", None),
    ]
}

#[test]
fn records_are_sorted_by_author_title_text_and_address() {
    let sorted = sort_records(&sample());
    assert_eq!(
        sorted,
        vec![
            record("", "", "", None),
            record("Ab", "z", "", None),
            record("Abe", "Z", "", None),
            record("夏目漱石", "こころ", "", Some("https://a")),
            record("夏目漱石", "こころ", "私はその人を常に先生と呼んでいた。", None),
            record("夏目漱石", "こころ", "私はその人を常に先生と呼んでいた。", Some("")),
            record("夏目漱石", "こころ", "私はその人を常に先生と呼んでいた。", Some("https://a")),
            record("夏目漱石", "こころ", "私はその人を常に先生と呼んでいた。", Some("https://a")),
            record("夏目漱石", "坊っちゃん", "親譲りの無鉄砲で。", Some("https://b")),
            record("芥川竜之介", "羅生門", "ある日の暮方の事である。", None),
            record("ｱ", "a", "", None),
            record("𠮷田", "a", "", None),
        ]
    );
    assert_eq!(sorted, std_sorted(&sample()));
}

#[test]
fn the_order_of_arrival_is_forgotten() {
    let forward = sample();
    let mut backward = sample();
    backward.reverse();
    let mut rotated = sample();
    rotated.rotate_left(5);
    assert_eq!(sort_records(&forward), sort_records(&backward));
    assert_eq!(sort_records(&forward), sort_records(&rotated));
    assert_eq!(finish(&forward), finish(&backward));
    assert_eq!(finish(&forward), finish(&rotated));
    assert_eq!(finish(&finish(&forward)), finish(&forward));
}

#[test]
fn the_table_holds_each_record_once() {
    let table = finish(&sample());
    assert_eq!(table.len(), 11);
    let mut expected = std_sorted(&sample());
    expected.dedup();
    assert_eq!(table, expected);
    assert_eq!(finish(&Vec::new()), Vec::new());
}

#[test]
fn dedup_drops_only_neighbours() {
    let a = record("a", "", "", None);
    let b = record("b", "", "", None);
    assert_eq!(
        dedup_records(&vec![a.clone(), a.clone(), b.clone(), a.clone(), a.clone(), a.clone()]),
        vec![a.clone(), b.clone(), a.clone()]
    );
    assert_eq!(dedup_records(&vec![a.clone()]), vec![a.clone()]);
    assert_eq!(dedup_records(&Vec::new()), Vec::new());
}

#[test]
fn the_order_of_records_goes_field_by_field() {
    let a = record("a", "z", "z", Some("z"));
    let b = record("b", "a", "a", None);
    assert!(record_before_or_same(&a, &b));
    assert!(!record_before_or_same(&b, &a));
    assert!(record_before_or_same(&a, &a));
    let none = record("a", "a", "a", None);
    let empty = record("a", "a", "a", Some(""));
    assert!(record_before_or_same(&none, &empty));
    assert!(!record_before_or_same(&empty, &none));
    assert!(same_record(&none, &copy_record(&none)));
    assert!(!same_record(&none, &empty));
    assert!(!same_record(&a, &b));
    // a text comes before every text that it begins
    assert!(record_before_or_same(&record("ab", "", "", None), &record("abc", "", "", None)));
    assert!(!record_before_or_same(&record("abc", "", "", None), &record("ab", "", "", None)));
}

fn author() -> Author {
    Author {
        id: "148".to_string(),
        name: "夏目漱石".to_string(),
        page_path: "index_pages/person148.html".to_string(),
    }
}

fn work() -> Work {
    Work {
        id: "789".to_string(),
        title: "吾輩は猫である".to_string(),
        page_path: "cards/000148/card789.html".to_string(),
    }
}

#[test]
fn a_work_without_archive_contributes_nothing() {
    assert_eq!(assemble(&author(), &work(), None, None), None);
    assert_eq!(assemble(&author(), &work(), None, Some("吾輩は猫である。".to_string())), None);
}

#[test]
fn a_work_with_archive_contributes_a_record_even_without_text() {
    let link = WorkLink {
        zip_path: "cards/000148/files/789_ruby_5639.zip".to_string(),
        html_link: Some("https://www.aozora.gr.jp/cards/000148/files/789_14547.html".to_string()),
    };
    assert_eq!(
        assemble(&author(), &work(), Some(&link), Some("吾輩は猫である。".to_string())),
        Some(record(
            "夏目漱石",
            "吾輩は猫である",
            "吾輩は猫である。",
            Some("https://www.aozora.gr.jp/cards/000148/files/789_14547.html")
        ))
    );
    assert_eq!(
        assemble(&author(), &work(), Some(&link), None),
        Some(record(
            "夏目漱石",
            "吾輩は猫である",
            "",
            Some("https://www.aozora.gr.jp/cards/000148/files/789_14547.html")
        ))
    );
    let bare = WorkLink { zip_path: "files/1.zip".to_string(), html_link: None };
    assert_eq!(
        assemble(&author(), &work(), Some(&bare), Some(String::new())),
        Some(record("夏目漱石", "吾輩は猫である", "", None))
    );
}

#[test]
fn a_row_has_four_columns() {
    assert_eq!(
        row(&record("夏目漱石", "こころ", "私は。", Some("https://a"))),
        vec!["夏目漱石", "こころ", "私は。", "https://a"]
    );
    assert_eq!(row(&record("a", "b", "", None)), vec!["a", "b", "", ""]);
}

#[test]
fn a_run_gathers_records_and_counts_the_works_without_archive() {
    let mut run = Run::new();
    assert_eq!(run.records, Vec::new());
    assert_eq!(run.skipped, 0);
    assert_eq!(run.table(), Vec::new());
    let link = WorkLink { zip_path: "files/789_ruby_5639.zip".to_string(), html_link: None };
    run.take_in(&author(), &work(), Some(&link), Some("吾輩は猫である。".to_string()));
    run.take_in(&author(), &work(), None, None);
    run.take_in(&author(), &work(), Some(&link), None);
    run.take_in(&author(), &work(), None, Some("x".to_string()));
    run.take_in(&author(), &work(), Some(&link), None);
    assert_eq!(run.skipped, 2);
    assert_eq!(
        run.records,
        vec![
            record("夏目漱石", "吾輩は猫である", "吾輩は猫である。", None),
            record("夏目漱石", "吾輩は猫である", "", None),
            record("夏目漱石", "吾輩は猫である", "", None),
        ]
    );
    assert_eq!(
        run.table(),
        vec![
            record("夏目漱石", "吾輩は猫である", "", None),
            record("夏目漱石", "吾輩は猫である", "吾輩は猫である。", None),
        ]
    );
    run.skipped = usize::MAX;
    run.take_in(&author(), &work(), None, None);
    assert_eq!(run.skipped, usize::MAX);
}
