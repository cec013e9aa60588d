use artdb::b_plus_tree::{BPlusTreeNode, InternalNode, LeafNode};
use artdb::codec::{decode_page, encode_page};
use artdb::error::Error;
use artdb::page::{Page, PageData, PAGE_SIZE};
use artdb::record::Record;

fn sample_records() -> PageData {
    let mut p = Page::new();
    p.insert(Record::new(1, vec![("name".to_string(), "Alice".to_string())]));
    p.insert(Record::new(2, vec![("name".to_string(), "Bob".to_string()), ("city".to_string(), "Zürich".to_string())]));
    PageData::Records(p)
}

#[test]
fn records_page_round_trip() {
    let image = encode_page(&sample_records()).unwrap();
    assert_eq!(image.len(), PAGE_SIZE);
    match decode_page(&image).unwrap() {
        PageData::Records(p) => {
            assert_eq!(p.records.len(), 2);
            assert_eq!(p.records[0].id, 1);
            assert_eq!(p.records[0].fields, vec![("name".to_string(), "Alice".to_string())]);
            assert_eq!(p.records[1].get_field("city"), Some(&"Zürich".to_string()));
        }
        other => panic!("unexpected page {:?}", other),
    }
}

#[test]
fn internal_node_round_trip() {
    let n = PageData::Node(BPlusTreeNode::Internal(InternalNode { keys: vec![10, 20], children: vec![3, 4, 5] }));
    let image = encode_page(&n).unwrap();
    match decode_page(&image).unwrap() {
        PageData::Node(BPlusTreeNode::Internal(i)) => {
            assert_eq!(i.keys, vec![10, 20]);
            assert_eq!(i.children, vec![3, 4, 5]);
        }
        other => panic!("unexpected page {:?}", other),
    }
}

#[test]
fn leaf_node_exact_bytes() {
    let n = PageData::Node(BPlusTreeNode::Leaf(LeafNode { keys: vec![1], values: vec![0x0102] }));
    let image = encode_page(&n).unwrap();
    let mut expected = vec![0u8; PAGE_SIZE];
    expected[0] = 2; // leaf tag
    expected[8] = 1; // one key
    expected[16] = 1; // the key
    expected[24] = 1; // one value
    expected[32] = 0x02;
    expected[33] = 0x01;
    assert_eq!(image, expected);
    match decode_page(&image).unwrap() {
        PageData::Node(BPlusTreeNode::Leaf(l)) => {
            assert_eq!(l.keys, vec![1]);
            assert_eq!(l.values, vec![0x0102]);
        }
        other => panic!("unexpected page {:?}", other),
    }
}

#[test]
fn zeroed_slot_is_empty_record_page() {
    let image = vec![0u8; PAGE_SIZE];
    match decode_page(&image).unwrap() {
        PageData::Records(p) => assert!(p.records.is_empty()),
        other => panic!("unexpected page {:?}", other),
    }
}

#[test]
fn oversized_page_is_refused() {
    let mut p = Page::new();
    p.insert(Record::new(1, vec![("big".to_string(), "x".repeat(5000))]));
    // tag 8 + count 8 + id 8 + field count 8 + (8 + 3) + (8 + 5000)
    assert_eq!(encode_page(&PageData::Records(p)).unwrap_err(), Error::PageSizeExceeded(5051));
}

#[test]
fn corrupt_bytes_are_refused() {
    let mut image = vec![0u8; PAGE_SIZE];
    image[0] = 9;
    assert_eq!(decode_page(&image).unwrap_err(), Error::CorruptPage);
    let short = vec![0u8; 100];
    assert_eq!(decode_page(&short).unwrap_err(), Error::CorruptPage);
    let mut huge_count = vec![0u8; PAGE_SIZE];
    huge_count[8] = 0xff;
    huge_count[15] = 0xff;
    assert_eq!(decode_page(&huge_count).unwrap_err(), Error::CorruptPage);
    let mut bad_utf8 = encode_page(&sample_records()).unwrap();
    // first record's first string starts at byte 40 after its length
    bad_utf8[40] = 0xff;
    assert_eq!(decode_page(&bad_utf8).unwrap_err(), Error::CorruptPage);
}
