use vstd::prelude::*;

use crate::b_plus_tree::BPlusTreeNode;
use crate::record::{Record, RecordView};

verus! {

/// The size in bytes of every page slot of the file.
pub const PAGE_SIZE: usize = 4096;

/// How many records a record page takes before it counts as full.
pub const RECORDS_PER_PAGE: usize = 10;

/// A record page: a flat list of records.
#[derive(Debug)]
pub struct Page {
    pub records: Vec<Record>,
}

/// What one page slot holds: a record page or a node of the index.
#[derive(Debug)]
pub enum PageData {
    Records(Page),
    Node(BPlusTreeNode),
}

/// The abstract value of a page slot's content.
pub enum PageView {
    Records(Seq<RecordView>),
    Internal(Seq<u32>, Seq<u64>),
    Leaf(Seq<u32>, Seq<u64>),
}

/// A cached page with its dirty and pinned flags.
#[derive(Debug)]
pub struct BufferPage {
    pub page: PageData,
    pub is_dirty: bool,
    pub is_pinned: bool,
}

pub open spec fn records_view(rs: Seq<Record>) -> Seq<RecordView> {
    rs.map_values(|r: Record| r@)
}

impl View for Page {
    type V = Seq<RecordView>;

    open spec fn view(&self) -> Seq<RecordView> {
        records_view(self.records@)
    }
}

impl View for PageData {
    type V = PageView;

    open spec fn view(&self) -> PageView {
        match self {
            PageData::Records(p) => PageView::Records(p@),
            PageData::Node(BPlusTreeNode::Internal(n)) => PageView::Internal(n.keys@, n.children@),
            PageData::Node(BPlusTreeNode::Leaf(n)) => PageView::Leaf(n.keys@, n.values@),
        }
    }
}

/// No record before position `i` has identifier `id`.
pub open spec fn no_id_before(rs: Seq<RecordView>, id: u32, i: int) -> bool {
    forall|j: int| 0 <= j < i ==> #[trigger] rs[j].id != id
}

/// `i` is the position of the first record with identifier `id`.
pub open spec fn first_with_id(rs: Seq<RecordView>, id: u32, i: int) -> bool {
    0 <= i < rs.len() && rs[i].id == id && no_id_before(rs, id, i)
}

impl BufferPage {
    /// A fresh cache entry: neither dirty nor pinned.
    pub fn new(page: PageData) -> (r: BufferPage)
        ensures
            r.page@ == page@,
            !r.is_dirty,
            !r.is_pinned,
    {
        BufferPage { page, is_dirty: false, is_pinned: false }
    }
}

impl Page {
    pub fn new() -> (r: Page)
        ensures
            r@.len() == 0,
    {
        Page { records: Vec::new() }
    }

    /// Appends a record.
    pub fn insert(&mut self, record: Record)
        ensures
            final(self)@ == old(self)@.push(record@),
    {
        self.records.push(record);
        assert(self@ =~= old(self)@.push(record@));
    }

    /// The first record with identifier `record_id`, if any.
    pub fn find_record(&self, record_id: u32) -> (r: Option<&Record>)
        ensures
            match r {
                Some(rec) => exists|i: int|
                    first_with_id(self@, record_id, i) && #[trigger] self@[i] == rec@,
                None => forall|i: int| 0 <= i < self@.len() ==> #[trigger] self@[i].id != record_id,
            },
    {
        let mut i: usize = 0;
        while i < self.records.len()
            invariant
                i <= self.records.len(),
                no_id_before(self@, record_id, i as int),
            decreases self.records.len() - i,
        {
            if self.records[i].id == record_id {
                assert(self@[i as int] == self.records@[i as int]@);
                return Some(&self.records[i]);
            }
            i += 1;
        }
        None
    }

    /// Removes the first record with identifier `record_id`; tells whether one
    /// was there.
    pub fn delete_record(&mut self, record_id: u32) -> (r: bool)
        ensures
            r == exists|i: int| first_with_id(old(self)@, record_id, i),
            r ==> exists|i: int|
                first_with_id(old(self)@, record_id, i) && final(self)@ == old(self)@.remove(i),
            !r ==> final(self)@ == old(self)@,
    {
        let mut i: usize = 0;
        while i < self.records.len()
            invariant
                i <= self.records.len(),
                self.records@ == old(self).records@,
                no_id_before(self@, record_id, i as int),
            decreases self.records.len() - i,
        {
            if self.records[i].id == record_id {
                let ghost before = self@;
                assert(before == old(self)@);
                self.records.remove(i);
                assert(first_with_id(before, record_id, i as int));
                assert(self@ =~= before.remove(i as int));
                assert(final(self)@ == old(self)@.remove(i as int));
                return true;
            }
            i += 1;
        }
        proof {
            if exists|k: int| first_with_id(old(self)@, record_id, k) {
                let k = choose|k: int| first_with_id(old(self)@, record_id, k);
                assert(old(self)@[k].id != record_id);
            }
        }
        false
    }

    /// Whether the page takes another record.
    pub fn has_space(&self) -> (r: bool)
        ensures
            r == (self@.len() < RECORDS_PER_PAGE),
    {
        self.records.len() < RECORDS_PER_PAGE
    }
}

} // verus!
