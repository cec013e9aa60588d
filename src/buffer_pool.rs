//! A bounded cache of decoded pages with strict LRU eviction among unpinned
//! pages. Entries are kept in recency order: the least recently used first.
use vstd::prelude::*;

use crate::error::Error;
use crate::page::{BufferPage, Page, PageData, PageView};
use crate::record::RecordView;
use crate::storage_engine::{lemma_read_after_write, read_page_spec, write_page_spec, StorageEngine};

verus! {

/// The abstract value of one cache entry.
pub struct CacheEntry {
    pub page_id: u64,
    pub page: PageView,
    pub is_dirty: bool,
    pub is_pinned: bool,
}

/// One vector holds both the cache table and the recency order: the entry
/// for a page sits at its place in that order, least recently used first.
/// This keeps a single owner for each cached page (no separate map and queue
/// to hold in step), and a hit is one removal and one push.
pub struct BufferPool {
    entries: Vec<(u64, BufferPage)>,
    capacity: usize,
}

pub open spec fn entry_view(e: (u64, BufferPage)) -> CacheEntry {
    CacheEntry { page_id: e.0, page: e.1.page@, is_dirty: e.1.is_dirty, is_pinned: e.1.is_pinned }
}

/// A fresh entry for a page just loaded.
pub open spec fn fresh(page_id: u64, p: PageView) -> CacheEntry {
    CacheEntry { page_id, page: p, is_dirty: false, is_pinned: false }
}

/// The empty record page that stands for a page never written.
pub open spec fn empty_page() -> PageView {
    PageView::Records(Seq::empty())
}

/// `i` is where page `page_id` sits in the cache.
pub open spec fn at_index(s: Seq<CacheEntry>, page_id: u64, i: int) -> bool {
    0 <= i < s.len() && s[i].page_id == page_id
}

pub open spec fn resident(s: Seq<CacheEntry>, page_id: u64) -> bool {
    exists|i: int| at_index(s, page_id, i)
}

pub open spec fn index_of(s: Seq<CacheEntry>, page_id: u64) -> int {
    choose|i: int| at_index(s, page_id, i)
}

/// No page identifier occurs twice.
pub open spec fn distinct_ids(s: Seq<CacheEntry>) -> bool {
    forall|i: int, j: int| 0 <= i < s.len() && 0 <= j < s.len() && i != j ==> s[i].page_id != s[j].page_id
}

/// `i` is the least recently used unpinned entry.
pub open spec fn first_unpinned(s: Seq<CacheEntry>, i: int) -> bool {
    0 <= i < s.len() && !s[i].is_pinned && forall|j: int| 0 <= j < i ==> #[trigger] s[j].is_pinned
}

pub open spec fn has_unpinned(s: Seq<CacheEntry>) -> bool {
    exists|i: int| first_unpinned(s, i)
}

pub open spec fn victim(s: Seq<CacheEntry>) -> int {
    choose|i: int| first_unpinned(s, i)
}

/// Evicting from cache `s` over file `file`: the outcome, the cache and the file.
pub open spec fn evict_spec(s: Seq<CacheEntry>, file: Seq<u8>) -> (Result<(), Error>, Seq<CacheEntry>, Seq<u8>) {
    if !has_unpinned(s) {
        (Err(Error::NoEvictablePage), s, file)
    } else {
        let i = victim(s);
        if s[i].is_dirty {
            match write_page_spec(file, s[i].page_id, s[i].page) {
                Ok(f) => (Ok(()), s.remove(i), f),
                Err(e) => (Err(e), s, file),
            }
        } else {
            (Ok(()), s.remove(i), file)
        }
    }
}

/// Adding an entry as the most recently used one, evicting first when the
/// cache is full.
pub open spec fn add_spec(s: Seq<CacheEntry>, capacity: nat, e: CacheEntry, file: Seq<u8>) -> (Result<(), Error>, Seq<CacheEntry>, Seq<u8>) {
    if resident(s, e.page_id) {
        (Ok(()), s.remove(index_of(s, e.page_id)).push(e), file)
    } else if s.len() >= capacity {
        let (r, s2, f2) = evict_spec(s, file);
        if r is Ok {
            (Ok(()), s2.push(e), f2)
        } else {
            (r, s, file)
        }
    } else {
        (Ok(()), s.push(e), file)
    }
}

/// Reading a page for the cache: a page never written is replaced by an
/// empty record page, which is persisted first.
pub open spec fn load_spec(file: Seq<u8>, page_id: u64) -> (Result<PageView, Error>, Seq<u8>) {
    match read_page_spec(file, page_id) {
        Ok(p) => (Ok(p), file),
        Err(Error::IO) => match write_page_spec(file, page_id, empty_page()) {
            Ok(f) => (Ok(empty_page()), f),
            Err(e) => (Err(e), file),
        },
        Err(e) => (Err(e), file),
    }
}

/// Fetching a page: a hit makes it the most recently used; a miss loads it
/// and adds it.
pub open spec fn get_spec(s: Seq<CacheEntry>, capacity: nat, file: Seq<u8>, page_id: u64) -> (Result<(), Error>, Seq<CacheEntry>, Seq<u8>) {
    if resident(s, page_id) {
        let i = index_of(s, page_id);
        (Ok(()), s.remove(i).push(s[i]), file)
    } else {
        let (r, f) = load_spec(file, page_id);
        match r {
            Ok(p) => add_spec(s, capacity, fresh(page_id, p), f),
            Err(e) => (Err(e), s, f),
        }
    }
}

/// The cache after replacing the entry of `page_id` by `e`, when resident.
pub open spec fn update_spec(s: Seq<CacheEntry>, page_id: u64, e: CacheEntry) -> Seq<CacheEntry> {
    if resident(s, page_id) {
        s.update(index_of(s, page_id), e)
    } else {
        s
    }
}

pub proof fn lemma_at_index_unique(s: Seq<CacheEntry>, page_id: u64, i: int)
    requires
        distinct_ids(s),
        at_index(s, page_id, i),
    ensures
        resident(s, page_id),
        index_of(s, page_id) == i,
{
}

proof fn lemma_first_unpinned_unique(s: Seq<CacheEntry>, i: int)
    requires
        first_unpinned(s, i),
    ensures
        has_unpinned(s),
        victim(s) == i,
{
    let k = victim(s);
    if k < i {
        assert(s[k].is_pinned);
    } else if i < k {
        assert(s[i].is_pinned);
    }
}

proof fn lemma_remove_distinct(s: Seq<CacheEntry>, i: int)
    requires
        distinct_ids(s),
        0 <= i < s.len(),
    ensures
        distinct_ids(s.remove(i)),
        forall|j: int| 0 <= j < s.remove(i).len() ==> #[trigger] s.remove(i)[j].page_id != s[i].page_id,
{
    let t = s.remove(i);
    assert forall|a: int, b: int| 0 <= a < t.len() && 0 <= b < t.len() && a != b implies t[a].page_id
        != t[b].page_id by {
        let a2 = if a < i { a } else { a + 1 };
        let b2 = if b < i { b } else { b + 1 };
        assert(t[a] == s[a2] && t[b] == s[b2]);
    }
    assert forall|j: int| 0 <= j < t.len() implies #[trigger] t[j].page_id != s[i].page_id by {
        let j2 = if j < i { j } else { j + 1 };
        assert(t[j] == s[j2]);
    }
}

proof fn lemma_push_distinct(s: Seq<CacheEntry>, e: CacheEntry)
    requires
        distinct_ids(s),
        !resident(s, e.page_id),
    ensures
        distinct_ids(s.push(e)),
{
    let t = s.push(e);
    assert forall|a: int, b: int| 0 <= a < t.len() && 0 <= b < t.len() && a != b implies t[a].page_id
        != t[b].page_id by {
        if a == s.len() {
            assert(!at_index(s, e.page_id, b));
        } else if b == s.len() {
            assert(!at_index(s, e.page_id, a));
        }
    }
}

proof fn lemma_update_distinct(s: Seq<CacheEntry>, i: int, e: CacheEntry)
    requires
        distinct_ids(s),
        0 <= i < s.len(),
        e.page_id == s[i].page_id,
    ensures
        distinct_ids(s.update(i, e)),
{
    let t = s.update(i, e);
    assert forall|a: int, b: int| 0 <= a < t.len() && 0 <= b < t.len() && a != b implies t[a].page_id
        != t[b].page_id by {
        assert(t[a].page_id == s[a].page_id);
        assert(t[b].page_id == s[b].page_id);
    }
}

/// Every pinned entry of `s` is still in `t`, unchanged.
pub open spec fn keeps_pinned(s: Seq<CacheEntry>, t: Seq<CacheEntry>) -> bool {
    forall|e: CacheEntry| #[trigger] s.contains(e) && e.is_pinned ==> t.contains(e)
}

/// Fetching a page keeps every pinned entry.
pub proof fn lemma_get_keeps_pinned(s: Seq<CacheEntry>, capacity: nat, file: Seq<u8>, page_id: u64)
    requires
        distinct_ids(s),
    ensures
        keeps_pinned(s, get_spec(s, capacity, file, page_id).1),
{
    let t = get_spec(s, capacity, file, page_id).1;
    assert forall|e: CacheEntry| #[trigger] s.contains(e) && e.is_pinned implies t.contains(e) by {
        let i = choose|i: int| 0 <= i < s.len() && s[i] == e;
        if resident(s, page_id) {
            let j = index_of(s, page_id);
            if i == j {
                assert(t[t.len() - 1] == e);
            } else if i < j {
                assert(t[i] == e);
            } else {
                assert(t[i - 1] == e);
            }
        } else {
            let (r, f) = load_spec(file, page_id);
            if r is Ok {
                let p = r->Ok_0;
                if s.len() >= capacity && has_unpinned(s) {
                    let v = victim(s);
                    assert(v != i);
                    let (r2, s2, f2) = evict_spec(s, f);
                    if r2 is Ok {
                        assert(s2 == s.remove(v));
                        if i < v {
                            assert(t[i] == e);
                        } else {
                            assert(t[i - 1] == e);
                        }
                    } else {
                        assert(t == s);
                        assert(t[i] == e);
                    }
                } else {
                    assert(t[i] == e);
                }
            } else {
                assert(t[i] == e);
            }
        }
    }
}

impl BufferPool {
    pub closed spec fn view(&self) -> Seq<CacheEntry> {
        self.entries@.map_values(|e: (u64, BufferPage)| entry_view(e))
    }

    pub closed spec fn capacity(&self) -> nat {
        self.capacity as nat
    }

    /// The cache holds each page once and no more pages than its capacity.
    pub open spec fn wf(&self) -> bool {
        distinct_ids(self.view()) && self.view().len() <= self.capacity()
    }

    pub fn new(capacity: usize) -> (r: BufferPool)
        ensures
            r.wf(),
            r.view().len() == 0,
            r.capacity() == capacity,
    {
        let r = BufferPool { entries: Vec::new(), capacity };
        assert(r.view() =~= Seq::empty());
        r
    }

    /// Where page `page_id` sits, if resident.
    fn find(&self, page_id: u64) -> (r: Option<usize>)
        requires
            self.wf(),
        ensures
            match r {
                Some(i) => at_index(self.view(), page_id, i as int) && index_of(self.view(), page_id)
                    == i,
                None => !resident(self.view(), page_id),
            },
    {
        let mut i: usize = 0;
        while i < self.entries.len()
            invariant
                self.wf(),
                i <= self.entries@.len(),
                forall|j: int| 0 <= j < i ==> #[trigger] self.view()[j].page_id != page_id,
            decreases self.entries.len() - i,
        {
            assert(self.view()[i as int] == entry_view(self.entries@[i as int]));
            if self.entries[i].0 == page_id {
                proof { lemma_at_index_unique(self.view(), page_id, i as int); }
                return Some(i);
            }
            i += 1;
        }
        None
    }

    /// The page ids, least recently used first.
    pub fn resident_pages(&self) -> (r: Vec<u64>)
        ensures
            r@ == self.view().map_values(|e: CacheEntry| e.page_id),
    {
        let mut out: Vec<u64> = Vec::new();
        let mut i: usize = 0;
        while i < self.entries.len()
            invariant
                i <= self.entries@.len(),
                out@ == self.view().subrange(0, i as int).map_values(|e: CacheEntry| e.page_id),
            decreases self.entries.len() - i,
        {
            out.push(self.entries[i].0);
            assert(out@ =~= self.view().subrange(0, i + 1).map_values(|e: CacheEntry| e.page_id));
            i += 1;
        }
        assert(self.view().subrange(0, i as int) =~= self.view());
        out
    }

    /// The cached entry of a page, if resident.
    pub fn page(&self, page_id: u64) -> (r: Option<&BufferPage>)
        requires
            self.wf(),
        ensures
            match r {
                Some(b) => resident(self.view(), page_id) && self.view()[index_of(self.view(), page_id)]
                    == entry_view((page_id, *b)),
                None => !resident(self.view(), page_id),
            },
    {
        match self.find(page_id) {
            Some(i) => {
                assert(self.view()[i as int] == entry_view(self.entries@[i as int]));
                Some(&self.entries[i].1)
            },
            None => None,
        }
    }

    /// Makes a resident page the most recently used.
    pub fn mark_page_as_used(&mut self, page_id: u64)
        requires
            old(self).wf(),
        ensures
            final(self).wf(),
            final(self).capacity() == old(self).capacity(),
            final(self).view() == (if resident(old(self).view(), page_id) {
                let i = index_of(old(self).view(), page_id);
                old(self).view().remove(i).push(old(self).view()[i])
            } else {
                old(self).view()
            }),
    {
        match self.find(page_id) {
            Some(i) => {
                let ghost s = self.view();
                let e = self.entries.remove(i);
                self.entries.push(e);
                proof {
                    assert(self.view() =~= s.remove(i as int).push(s[i as int]));
                    lemma_remove_distinct(s, i as int);
                    lemma_push_distinct(s.remove(i as int), s[i as int]);
                }
            },
            None => {},
        }
    }

    /// Replaces the entry at `i` by `e`.
    fn replace_at(&mut self, i: usize, e: BufferPage)
        requires
            old(self).wf(),
            i < old(self).view().len(),
        ensures
            final(self).capacity() == old(self).capacity(),
            final(self).view() == old(self).view().update(
                i as int,
                entry_view((old(self).view()[i as int].page_id, e)),
            ),
            final(self).wf(),
    {
        let ghost s = self.view();
        let (id, _) = self.entries.remove(i);
        assert(s[i as int].page_id == id);
        self.entries.insert(i, (id, e));
        assert(self.view() =~= s.update(i as int, entry_view((id, e))));
        proof { lemma_update_distinct(s, i as int, entry_view((id, e))); }
    }

    /// Sets the flags of a resident page; does nothing for another page.
    fn set_flags(&mut self, page_id: u64, dirty: Option<bool>, pinned: Option<bool>)
        requires
            old(self).wf(),
        ensures
            final(self).wf(),
            final(self).capacity() == old(self).capacity(),
            final(self).view() == update_spec(
                old(self).view(),
                page_id,
                ({
                    let e = old(self).view()[index_of(old(self).view(), page_id)];
                    CacheEntry {
                        page_id,
                        page: e.page,
                        is_dirty: if dirty is Some { dirty->0 } else { e.is_dirty },
                        is_pinned: if pinned is Some { pinned->0 } else { e.is_pinned },
                    }
                }),
            ),
    {
        match self.find(page_id) {
            Some(i) => {
                let ghost s = self.view();
                let (id, bp) = self.entries.remove(i);
                assert(entry_view((id, bp)) == s[i as int]);
                let BufferPage { page, is_dirty, is_pinned } = bp;
                let nb = BufferPage {
                    page,
                    is_dirty: match dirty {
                        Some(d) => d,
                        None => is_dirty,
                    },
                    is_pinned: match pinned {
                        Some(p) => p,
                        None => is_pinned,
                    },
                };
                self.entries.insert(i, (id, nb));
                proof {
                    assert(self.view() =~= s.update(i as int, entry_view((id, nb))));
                    lemma_update_distinct(s, i as int, entry_view((id, nb)));
                }
            },
            None => {},
        }
    }

    /// Marks a resident page as changed since it was last written.
    pub fn mark_page_as_dirty(&mut self, page_id: u64)
        requires
            old(self).wf(),
        ensures
            final(self).wf(),
            final(self).capacity() == old(self).capacity(),
            final(self).view() == update_spec(
                old(self).view(),
                page_id,
                (CacheEntry { is_dirty: true, ..old(self).view()[index_of(old(self).view(), page_id)] }),
            ),
    {
        self.set_flags(page_id, Some(true), None);
    }

    /// Protects a resident page from eviction.
    pub fn pin_page(&mut self, page_id: u64)
        requires
            old(self).wf(),
        ensures
            final(self).wf(),
            final(self).capacity() == old(self).capacity(),
            final(self).view() == update_spec(
                old(self).view(),
                page_id,
                (CacheEntry { is_pinned: true, ..old(self).view()[index_of(old(self).view(), page_id)] }),
            ),
    {
        self.set_flags(page_id, None, Some(true));
    }

    /// Lets a resident page be evicted again.
    pub fn unpin_page(&mut self, page_id: u64)
        requires
            old(self).wf(),
        ensures
            final(self).wf(),
            final(self).capacity() == old(self).capacity(),
            final(self).view() == update_spec(
                old(self).view(),
                page_id,
                (CacheEntry { is_pinned: false, ..old(self).view()[index_of(old(self).view(), page_id)] }),
            ),
    {
        self.set_flags(page_id, None, Some(false));
    }
    /// Replaces the content of a resident page and marks it dirty; tells
    /// whether the page was resident.
    pub fn set_page(&mut self, page_id: u64, page: PageData) -> (r: bool)
        requires
            old(self).wf(),
        ensures
            final(self).wf(),
            final(self).capacity() == old(self).capacity(),
            r == resident(old(self).view(), page_id),
            final(self).view() == update_spec(
                old(self).view(),
                page_id,
                (CacheEntry {
                    page: page@,
                    is_dirty: true,
                    ..old(self).view()[index_of(old(self).view(), page_id)]
                }),
            ),
    {
        match self.find(page_id) {
            Some(i) => {
                let pinned = self.entries[i].1.is_pinned;
                self.replace_at(i, BufferPage { page, is_dirty: true, is_pinned: pinned });
                true
            },
            None => false,
        }
    }

    /// Drops the least recently used unpinned page, writing it first when it
    /// is dirty.
    pub fn evict(&mut self, engine: &mut StorageEngine) -> (r: Result<(), Error>)
        requires
            old(self).wf(),
        ensures
            final(self).wf(),
            final(self).capacity() == old(self).capacity(),
            final(engine).next_page_id() == old(engine).next_page_id(),
            (r, final(self).view(), final(engine).file()) == evict_spec(
                old(self).view(),
                old(engine).file(),
            ),
    {
        let ghost s = self.view();
        let mut i: usize = 0;
        while i < self.entries.len() && self.entries[i].1.is_pinned
            invariant
                i <= self.entries@.len(),
                self.view() == s,
                forall|j: int| 0 <= j < i ==> #[trigger] s[j].is_pinned,
            decreases self.entries.len() - i,
        {
            assert(s[i as int] == entry_view(self.entries@[i as int]));
            i += 1;
        }
        if i == self.entries.len() {
            proof {
                if has_unpinned(s) {
                    let k = victim(s);
                    assert(s[k].is_pinned);
                }
            }
            return Err(Error::NoEvictablePage);
        }
        assert(s[i as int] == entry_view(self.entries@[i as int]));
        proof { lemma_first_unpinned_unique(s, i as int); }
        if self.entries[i].1.is_dirty {
            match engine.write_page(self.entries[i].0, &self.entries[i].1.page) {
                Ok(()) => {},
                Err(e) => return Err(e),
            }
        }
        self.entries.remove(i);
        proof {
            assert(self.view() =~= s.remove(i as int));
            lemma_remove_distinct(s, i as int);
        }
        Ok(())
    }

    /// Adds a page as the most recently used, evicting first when the pool is
    /// full; a resident entry of the same page is replaced.
    pub fn add_page_to_pool(&mut self, page_id: u64, page: BufferPage, engine: &mut StorageEngine) -> (r: Result<(), Error>)
        requires
            old(self).wf(),
        ensures
            final(self).wf(),
            final(self).capacity() == old(self).capacity(),
            final(engine).next_page_id() == old(engine).next_page_id(),
            (r, final(self).view(), final(engine).file()) == add_spec(
                old(self).view(),
                old(self).capacity(),
                entry_view((page_id, page)),
                old(engine).file(),
            ),
    {
        let ghost s = self.view();
        let ghost e = entry_view((page_id, page));
        match self.find(page_id) {
            Some(i) => {
                self.entries.remove(i);
                self.entries.push((page_id, page));
                proof {
                    assert(self.view() =~= s.remove(i as int).push(e));
                    lemma_remove_distinct(s, i as int);
                    lemma_push_distinct(s.remove(i as int), e);
                }
                return Ok(());
            },
            None => {},
        }
        if self.entries.len() >= self.capacity {
            match self.evict(engine) {
                Ok(()) => {},
                Err(x) => return Err(x),
            }
            proof {
                let k = victim(s);
                assert forall|j: int| 0 <= j < self.view().len() implies !(#[trigger] at_index(self.view(), page_id, j)) by {
                    let j2 = if j < k { j } else { j + 1 };
                    assert(self.view()[j] == s[j2]);
                    assert(!at_index(s, page_id, j2));
                }
            }
        }
        let ghost s2 = self.view();
        self.entries.push((page_id, page));
        proof {
            assert(self.view() =~= s2.push(e));
            lemma_push_distinct(s2, e);
        }
        Ok(())
    }

    /// Makes a page resident and the most recently used. On a miss the page
    /// is read from the engine; a page never written is replaced by an empty
    /// record page, which is written first.
    pub fn get_page(&mut self, page_id: u64, engine: &mut StorageEngine) -> (r: Result<(), Error>)
        requires
            old(self).wf(),
        ensures
            final(self).wf(),
            final(self).capacity() == old(self).capacity(),
            final(engine).next_page_id() == old(engine).next_page_id(),
            (r, final(self).view(), final(engine).file()) == get_spec(
                old(self).view(),
                old(self).capacity(),
                old(engine).file(),
                page_id,
            ),
            r is Ok ==> resident(final(self).view(), page_id) && final(self).view().last().page_id
                == page_id && index_of(final(self).view(), page_id) == final(self).view().len() - 1,
    {
        let ghost s = self.view();
        match self.find(page_id) {
            Some(i) => {
                self.mark_page_as_used(page_id);
                proof {
                    let t = self.view();
                    assert(t[t.len() - 1].page_id == page_id);
                    lemma_at_index_unique(t, page_id, t.len() - 1);
                }
                return Ok(());
            },
            None => {},
        }
        let page = match engine.read_page(page_id) {
            Ok(p) => p,
            Err(Error::IO) => {
                let fresh_page = Page::new();
                assert(fresh_page@ =~= Seq::<RecordView>::empty());
                let empty = PageData::Records(fresh_page);
                match engine.write_page(page_id, &empty) {
                    Ok(()) => empty,
                    Err(e) => return Err(e),
                }
            },
            Err(e) => return Err(e),
        };
        let r = self.add_page_to_pool(page_id, BufferPage::new(page), engine);
        proof {
            if r is Ok {
                let t = self.view();
                assert(t[t.len() - 1].page_id == page_id);
                lemma_at_index_unique(t, page_id, t.len() - 1);
            }
        }
        r
    }

    /// Writes a resident page to its slot without evicting it; it is clean
    /// afterwards. `Ok(false)` when the page is not resident.
    pub fn write_page_to_disk(&mut self, page_id: u64, engine: &mut StorageEngine) -> (r: Result<bool, Error>)
        requires
            old(self).wf(),
        ensures
            final(self).wf(),
            final(self).capacity() == old(self).capacity(),
            final(engine).next_page_id() == old(engine).next_page_id(),
            !resident(old(self).view(), page_id) ==> r == Ok::<bool, Error>(false) && final(self).view()
                == old(self).view() && final(engine).file() == old(engine).file(),
            resident(old(self).view(), page_id) ==> ({
                let e = old(self).view()[index_of(old(self).view(), page_id)];
                match write_page_spec(old(engine).file(), page_id, e.page) {
                    Ok(f) => r == Ok::<bool, Error>(true) && final(engine).file() == f
                        && final(self).view() == old(self).view().update(
                        index_of(old(self).view(), page_id),
                        CacheEntry { is_dirty: false, ..e },
                    ),
                    Err(x) => r == Err::<bool, Error>(x) && final(engine).file() == old(engine).file()
                        && final(self).view() == old(self).view(),
                }
            }),
    {
        match self.find(page_id) {
            Some(i) => {
                assert(self.view()[i as int] == entry_view(self.entries@[i as int]));
                match engine.write_page(page_id, &self.entries[i].1.page) {
                    Ok(()) => {},
                    Err(e) => return Err(e),
                }
                self.set_flags(page_id, Some(false), None);
                Ok(true)
            },
            None => Ok(false),
        }
    }
}

/// Filling a full pool of unpinned pages with one more page evicts exactly the
/// least recently used page: the resident pages are then the old ones but the
/// first, followed by the new one.
pub proof fn lemma_lru_victim(s: Seq<CacheEntry>, capacity: nat, file: Seq<u8>, page_id: u64)
    requires
        distinct_ids(s),
        s.len() == capacity > 0,
        forall|i: int| 0 <= i < s.len() ==> !(#[trigger] s[i].is_pinned),
        !resident(s, page_id),
        get_spec(s, capacity, file, page_id).0 is Ok,
    ensures
        get_spec(s, capacity, file, page_id).1.map_values(|e: CacheEntry| e.page_id)
            == s.drop_first().map_values(|e: CacheEntry| e.page_id).push(page_id),
{
    lemma_first_unpinned_unique(s, 0);
    let (r, f) = load_spec(file, page_id);
    let p = r->Ok_0;
    let t = get_spec(s, capacity, file, page_id).1;
    assert(t == s.remove(0).push(fresh(page_id, p)));
    assert(s.remove(0) =~= s.drop_first());
    assert(t.map_values(|e: CacheEntry| e.page_id) =~= s.drop_first().map_values(
        |e: CacheEntry| e.page_id,
    ).push(page_id));
}

/// A hit makes the page the most recently used, so that the next eviction
/// from a pool of unpinned pages that holds another page takes another page.
pub proof fn lemma_hit_protects(s: Seq<CacheEntry>, capacity: nat, file: Seq<u8>, page_id: u64)
    requires
        distinct_ids(s),
        resident(s, page_id),
        s.len() >= 2,
        forall|i: int| 0 <= i < s.len() ==> !(#[trigger] s[i].is_pinned),
    ensures
        ({
            let t = get_spec(s, capacity, file, page_id).1;
            &&& t.last().page_id == page_id
            &&& evict_spec(t, file).0 is Ok ==> resident(evict_spec(t, file).1, page_id)
        }),
{
    let i = index_of(s, page_id);
    let t = s.remove(i).push(s[i]);
    assert(!t[0].is_pinned);
    lemma_first_unpinned_unique(t, 0);
    assert(t.remove(0)[t.len() - 2] == t[t.len() - 1]);
    assert(at_index(t.remove(0), page_id, t.len() - 2));
}

/// A pinned page survives every eviction, and eviction fails with
/// `NoEvictablePage` when every resident page is pinned.
pub proof fn lemma_pinned_stay(s: Seq<CacheEntry>, file: Seq<u8>, page_id: u64)
    requires
        distinct_ids(s),
        resident(s, page_id),
        s[index_of(s, page_id)].is_pinned,
    ensures
        resident(evict_spec(s, file).1, page_id),
        (forall|i: int| 0 <= i < s.len() ==> #[trigger] s[i].is_pinned) ==> evict_spec(s, file).0
            == Err::<(), Error>(Error::NoEvictablePage),
{
    let k = index_of(s, page_id);
    if has_unpinned(s) {
        let v = victim(s);
        assert(v != k);
        let t = s.remove(v);
        let k2 = if k < v { k } else { k - 1 };
        assert(t[k2] == s[k]);
        assert(at_index(t, page_id, k2));
    }
    if forall|i: int| 0 <= i < s.len() ==> #[trigger] s[i].is_pinned {
        if has_unpinned(s) {
            assert(s[victim(s)].is_pinned);
        }
    }
}

/// A dirty page that eviction drops has been written: reading its slot from
/// the engine gives its latest cached content.
pub proof fn lemma_evicted_dirty_persists(s: Seq<CacheEntry>, file: Seq<u8>)
    requires
        evict_spec(s, file).0 is Ok,
        s[victim(s)].is_dirty,
    ensures
        read_page_spec(evict_spec(s, file).2, s[victim(s)].page_id) == Ok::<PageView, Error>(
            s[victim(s)].page,
        ),
{
    let e = s[victim(s)];
    lemma_read_after_write(file, e.page_id, e.page);
}

} // verus!
