use artdb::page::{BufferPage, Page, PageData, RECORDS_PER_PAGE};
use artdb::record::Record;

fn pair(a: &str, b: &str) -> (String, String) {
    (a.to_string(), b.to_string())
}

#[test]
fn record_new_keeps_id_and_fields() {
    let r = Record::new(7, vec![pair("name", "Alice")]);
    assert_eq!(r.id, 7);
    assert_eq!(r.fields, vec![pair("name", "Alice")]);
}

#[test]
fn get_field_first_match_wins() {
    let r = Record::new(1, vec![pair("a", "1"), pair("b", "2"), pair("a", "3")]);
    assert_eq!(r.get_field("a"), Some(&"1".to_string()));
    assert_eq!(r.get_field("b"), Some(&"2".to_string()));
    assert_eq!(r.get_field("c"), None);
}

#[test]
fn put_field_updates_first_match() {
    let mut r = Record::new(1, vec![pair("a", "1"), pair("b", "2"), pair("a", "3")]);
    r.put_field("a", "9");
    assert_eq!(r.fields, vec![pair("a", "9"), pair("b", "2"), pair("a", "3")]);
}

#[test]
fn put_field_appends_new_name() {
    let mut r = Record::new(1, vec![pair("a", "1")]);
    r.put_field("z", "26");
    assert_eq!(r.fields, vec![pair("a", "1"), pair("z", "26")]);
    assert_eq!(r.get_field("z"), Some(&"26".to_string()));
}

#[test]
fn page_insert_and_find() {
    let mut p = Page::new();
    assert!(p.records.is_empty());
    p.insert(Record::new(1, vec![pair("name", "Alice")]));
    p.insert(Record::new(2, vec![pair("name", "Bob")]));
    p.insert(Record::new(1, vec![pair("name", "Again")]));
    let found = p.find_record(1).unwrap();
    assert_eq!(found.get_field("name"), Some(&"Alice".to_string()));
    assert_eq!(p.find_record(2).unwrap().id, 2);
    assert!(p.find_record(3).is_none());
}

#[test]
fn page_delete_removes_first_match_only() {
    let mut p = Page::new();
    p.insert(Record::new(1, vec![pair("n", "x")]));
    p.insert(Record::new(2, vec![]));
    p.insert(Record::new(1, vec![pair("n", "y")]));
    assert!(p.delete_record(1));
    assert_eq!(p.records.len(), 2);
    assert_eq!(p.records[0].id, 2);
    assert_eq!(p.find_record(1).unwrap().get_field("n"), Some(&"y".to_string()));
    assert!(!p.delete_record(5));
    assert_eq!(p.records.len(), 2);
}

#[test]
fn page_has_space_until_ten_records() {
    let mut p = Page::new();
    for i in 0..RECORDS_PER_PAGE {
        assert!(p.has_space());
        p.insert(Record::new(i as u32, vec![]));
    }
    assert_eq!(p.records.len(), 10);
    assert!(!p.has_space());
}

#[test]
fn buffer_page_starts_clean_and_unpinned() {
    let b = BufferPage::new(PageData::Records(Page::new()));
    assert!(!b.is_dirty);
    assert!(!b.is_pinned);
}
