use artdb::buffer_pool::BufferPool;
use artdb::error::Error;
use artdb::page::{Page, PageData};
use artdb::record::Record;
use artdb::storage_engine::StorageEngine;

fn named(name: &str) -> PageData {
    let mut p = Page::new();
    p.insert(Record::new(1, vec![("name".to_string(), name.to_string())]));
    PageData::Records(p)
}

fn name_of(p: &PageData) -> String {
    match p {
        PageData::Records(p) => p.records[0].get_field("name").unwrap().clone(),
        other => panic!("unexpected page {:?}", other),
    }
}

#[test]
fn capacity_two_scenario_evicts_page_one() {
    let mut e = StorageEngine::new(Vec::new());
    let mut pool = BufferPool::new(2);
    pool.get_page(1, &mut e).unwrap();
    pool.get_page(2, &mut e).unwrap();
    pool.get_page(3, &mut e).unwrap();
    let mut ids = pool.resident_pages();
    ids.sort();
    assert_eq!(ids, vec![2, 3]);
}

#[test]
fn miss_on_unwritten_page_persists_empty_page() {
    let mut e = StorageEngine::new(Vec::new());
    let mut pool = BufferPool::new(4);
    pool.get_page(2, &mut e).unwrap();
    match pool.page(2).unwrap().page {
        PageData::Records(ref p) => assert!(p.records.is_empty()),
        ref other => panic!("unexpected page {:?}", other),
    }
    match e.read_page(2).unwrap() {
        PageData::Records(p) => assert!(p.records.is_empty()),
        other => panic!("unexpected page {:?}", other),
    }
}

#[test]
fn overflow_evicts_least_recently_used() {
    let mut e = StorageEngine::new(Vec::new());
    let mut pool = BufferPool::new(3);
    for id in [4u64, 5, 6] {
        pool.get_page(id, &mut e).unwrap();
    }
    pool.get_page(7, &mut e).unwrap();
    assert_eq!(pool.resident_pages(), vec![5, 6, 7]);
}

#[test]
fn hit_protects_page_from_next_eviction() {
    let mut e = StorageEngine::new(Vec::new());
    let mut pool = BufferPool::new(2);
    pool.get_page(1, &mut e).unwrap();
    pool.get_page(2, &mut e).unwrap();
    pool.get_page(1, &mut e).unwrap();
    assert_eq!(pool.resident_pages(), vec![2, 1]);
    pool.get_page(3, &mut e).unwrap();
    assert_eq!(pool.resident_pages(), vec![1, 3]);
}

#[test]
fn mark_page_as_used_moves_to_back() {
    let mut e = StorageEngine::new(Vec::new());
    let mut pool = BufferPool::new(3);
    for id in [1u64, 2, 3] {
        pool.get_page(id, &mut e).unwrap();
    }
    pool.mark_page_as_used(1);
    assert_eq!(pool.resident_pages(), vec![2, 3, 1]);
    pool.mark_page_as_used(9);
    assert_eq!(pool.resident_pages(), vec![2, 3, 1]);
}

#[test]
fn pinned_page_is_never_evicted() {
    let mut e = StorageEngine::new(Vec::new());
    let mut pool = BufferPool::new(2);
    pool.get_page(1, &mut e).unwrap();
    pool.get_page(2, &mut e).unwrap();
    pool.pin_page(1);
    assert!(pool.page(1).unwrap().is_pinned);
    pool.get_page(3, &mut e).unwrap();
    assert_eq!(pool.resident_pages(), vec![1, 3]);
    pool.get_page(4, &mut e).unwrap();
    assert_eq!(pool.resident_pages(), vec![1, 4]);
}

#[test]
fn all_pinned_gives_no_evictable_page() {
    let mut e = StorageEngine::new(Vec::new());
    let mut pool = BufferPool::new(2);
    pool.get_page(1, &mut e).unwrap();
    pool.get_page(2, &mut e).unwrap();
    pool.pin_page(1);
    pool.pin_page(2);
    assert_eq!(pool.evict(&mut e), Err(Error::NoEvictablePage));
    assert_eq!(pool.get_page(3, &mut e), Err(Error::NoEvictablePage));
    assert_eq!(pool.resident_pages(), vec![1, 2]);
    pool.unpin_page(2);
    assert!(!pool.page(2).unwrap().is_pinned);
    pool.get_page(3, &mut e).unwrap();
    assert_eq!(pool.resident_pages(), vec![1, 3]);
}

#[test]
fn empty_pool_has_nothing_to_evict() {
    let mut e = StorageEngine::new(Vec::new());
    let mut pool = BufferPool::new(0);
    assert_eq!(pool.evict(&mut e), Err(Error::NoEvictablePage));
    assert_eq!(pool.get_page(0, &mut e), Err(Error::NoEvictablePage));
}

#[test]
fn dirty_page_is_written_on_eviction() {
    let mut e = StorageEngine::new(Vec::new());
    let mut pool = BufferPool::new(1);
    pool.get_page(0, &mut e).unwrap();
    assert!(pool.set_page(0, named("Alice")));
    assert!(pool.page(0).unwrap().is_dirty);
    match e.read_page(0).unwrap() {
        PageData::Records(p) => assert!(p.records.is_empty()),
        other => panic!("unexpected page {:?}", other),
    }
    pool.get_page(1, &mut e).unwrap();
    assert_eq!(pool.resident_pages(), vec![1]);
    assert_eq!(name_of(&e.read_page(0).unwrap()), "Alice");
    pool.get_page(0, &mut e).unwrap();
    assert_eq!(name_of(&pool.page(0).unwrap().page), "Alice");
}

#[test]
fn clean_page_is_dropped_without_write() {
    let mut e = StorageEngine::new(Vec::new());
    let mut pool = BufferPool::new(1);
    pool.get_page(0, &mut e).unwrap();
    let before = e.contents().clone();
    pool.get_page(1, &mut e).unwrap();
    assert_eq!(&e.contents()[..before.len()], &before[..]);
}

#[test]
fn mark_dirty_and_write_to_disk() {
    let mut e = StorageEngine::new(Vec::new());
    let mut pool = BufferPool::new(2);
    pool.get_page(0, &mut e).unwrap();
    pool.mark_page_as_dirty(0);
    assert!(pool.page(0).unwrap().is_dirty);
    pool.set_page(0, named("Bob"));
    assert_eq!(pool.write_page_to_disk(0, &mut e), Ok(true));
    assert!(!pool.page(0).unwrap().is_dirty);
    assert_eq!(name_of(&e.read_page(0).unwrap()), "Bob");
    assert_eq!(pool.write_page_to_disk(5, &mut e), Ok(false));
    assert!(!pool.set_page(5, named("x")));
}

#[test]
fn add_page_to_pool_replaces_resident_entry() {
    let mut e = StorageEngine::new(Vec::new());
    let mut pool = BufferPool::new(2);
    pool.get_page(0, &mut e).unwrap();
    pool.get_page(1, &mut e).unwrap();
    pool.add_page_to_pool(0, artdb::page::BufferPage::new(named("Z")), &mut e).unwrap();
    assert_eq!(pool.resident_pages(), vec![1, 0]);
    assert_eq!(name_of(&pool.page(0).unwrap().page), "Z");
}

#[test]
fn corrupt_page_is_not_cached() {
    let mut data = vec![0u8; 4096];
    data[0] = 7;
    let mut e = StorageEngine::new(data);
    let mut pool = BufferPool::new(2);
    assert_eq!(pool.get_page(0, &mut e), Err(Error::CorruptPage));
    assert!(pool.resident_pages().is_empty());
}
