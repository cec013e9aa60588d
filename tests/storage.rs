use artdb::b_plus_tree::{BPlusTreeNode, LeafNode};
use artdb::error::Error;
use artdb::page::{Page, PageData, PAGE_SIZE};
use artdb::record::Record;
use artdb::storage_engine::StorageEngine;

fn record_page(id: u32, name: &str) -> PageData {
    let mut p = Page::new();
    p.insert(Record::new(id, vec![("name".to_string(), name.to_string())]));
    PageData::Records(p)
}

fn name_of(p: PageData) -> String {
    match p {
        PageData::Records(p) => p.records[0].get_field("name").unwrap().clone(),
        other => panic!("unexpected page {:?}", other),
    }
}

#[test]
fn next_page_id_follows_file_length() {
    assert_eq!(StorageEngine::new(Vec::new()).next_id(), 0);
    assert_eq!(StorageEngine::new(vec![0u8; 2 * PAGE_SIZE + 100]).next_id(), 2);
}

#[test]
fn allocate_hands_out_consecutive_ids() {
    let mut e = StorageEngine::new(vec![0u8; PAGE_SIZE]);
    assert_eq!(e.allocate_page(), 1);
    assert_eq!(e.allocate_page(), 2);
    assert_eq!(e.next_id(), 3);
    assert_eq!(e.contents().len(), PAGE_SIZE);
}

#[test]
fn write_then_read_round_trip() {
    let mut e = StorageEngine::new(Vec::new());
    let id = e.allocate_page();
    e.write_page(id, &record_page(1, "Alice")).unwrap();
    let other = e.allocate_page();
    e.write_page(other, &record_page(2, "Bob")).unwrap();
    assert_eq!(name_of(e.read_page(id).unwrap()), "Alice");
    assert_eq!(name_of(e.read_page(other).unwrap()), "Bob");
    e.write_page(id, &record_page(1, "Carol")).unwrap();
    assert_eq!(name_of(e.read_page(id).unwrap()), "Carol");
    assert_eq!(name_of(e.read_page(other).unwrap()), "Bob");
}

#[test]
fn written_region_is_exactly_the_slot() {
    let mut e = StorageEngine::new(vec![7u8; 10]);
    let leaf = PageData::Node(BPlusTreeNode::Leaf(LeafNode { keys: vec![5], values: vec![6] }));
    e.write_page(2, &leaf).unwrap();
    let data = e.contents();
    assert_eq!(data.len(), 3 * PAGE_SIZE);
    assert!(data[..10].iter().all(|b| *b == 7));
    assert!(data[10..2 * PAGE_SIZE].iter().all(|b| *b == 0));
    assert_eq!(data[2 * PAGE_SIZE], 2);
    assert_eq!(data[2 * PAGE_SIZE + 16], 5);
    assert_eq!(data[2 * PAGE_SIZE + 32], 6);
    assert!(data[2 * PAGE_SIZE + 40..].iter().all(|b| *b == 0));
}

#[test]
fn read_beyond_end_is_io_error() {
    let mut e = StorageEngine::new(Vec::new());
    assert_eq!(e.read_page(0).unwrap_err(), Error::IO);
    e.write_page(0, &record_page(1, "x")).unwrap();
    assert!(e.read_page(0).is_ok());
    assert_eq!(e.read_page(1).unwrap_err(), Error::IO);
}

#[test]
fn oversized_write_leaves_file_alone() {
    let mut e = StorageEngine::new(Vec::new());
    let mut p = Page::new();
    p.insert(Record::new(1, vec![("big".to_string(), "y".repeat(PAGE_SIZE))]));
    assert!(matches!(e.write_page(0, &PageData::Records(p)), Err(Error::PageSizeExceeded(_))));
    assert!(e.contents().is_empty());
}

#[test]
fn corrupt_slot_is_reported() {
    let mut data = vec![0u8; PAGE_SIZE];
    data[0] = 3;
    let e = StorageEngine::new(data);
    assert_eq!(e.read_page(0).unwrap_err(), Error::CorruptPage);
}

#[test]
fn raw_write_and_read_at_offsets() {
    let mut e = StorageEngine::new(Vec::new());
    e.write_at(5, &[1, 2, 3]).unwrap();
    assert_eq!(e.contents(), &vec![0, 0, 0, 0, 0, 1, 2, 3]);
    assert_eq!(e.read_at(4, 3).unwrap(), vec![0, 1, 2]);
    assert_eq!(e.read_at(6, 3).unwrap_err(), Error::IO);
    e.write_at(0, &[9]).unwrap();
    assert_eq!(e.read_at(0, 8).unwrap(), vec![9, 0, 0, 0, 0, 1, 2, 3]);
}
