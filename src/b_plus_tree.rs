//! The B+Tree index: nodes stored one per page and reached through the
//! buffer pool.
use vstd::prelude::*;

use crate::buffer_pool::{
    at_index, fresh, index_of, keeps_pinned, lemma_at_index_unique, lemma_get_keeps_pinned, resident, BufferPool,
    CacheEntry,
};
use crate::error::Error;
use crate::page::{PageData, PageView};
use crate::codec::{fits, u32s_bytes, u64s_bytes};
use crate::storage_engine::{
    addressable, lemma_read_after_write, lemma_write_keeps_other_slots, read_page_spec, write_page_spec,
    StorageEngine,
};

verus! {

/// A node of the index, stored in one page.
#[derive(Debug)]
pub enum BPlusTreeNode {
    Internal(InternalNode),
    Leaf(LeafNode),
}

/// A navigation node: `children` has one more entry than `keys`; keys under
/// `children[i]` are below `keys[i]` and at least `keys[i - 1]`.
#[derive(Debug)]
pub struct InternalNode {
    pub keys: Vec<u32>,
    pub children: Vec<u64>,
}

/// A leaf: `values[i]` belongs to `keys[i]`.
#[derive(Debug)]
pub struct LeafNode {
    pub keys: Vec<u32>,
    pub values: Vec<u64>,
}

pub open spec fn strictly_sorted(ks: Seq<u32>) -> bool {
    forall|i: int, j: int| 0 <= i < j < ks.len() ==> ks[i] < ks[j]
}

/// `pos` is where `key` belongs among the sorted `ks`: after every smaller
/// key and before every larger one.
pub open spec fn lower_bound(ks: Seq<u32>, key: u32, pos: int) -> bool {
    &&& 0 <= pos <= ks.len()
    &&& forall|j: int| 0 <= j < pos ==> #[trigger] ks[j] < key
    &&& forall|j: int| pos <= j < ks.len() ==> key <= #[trigger] ks[j]
}

/// `pos` is the child to descend into for `key`: the first whose separator is
/// above `key`, or the last child.
pub open spec fn child_pos(ks: Seq<u32>, key: u32, pos: int) -> bool {
    &&& 0 <= pos <= ks.len()
    &&& forall|j: int| 0 <= j < pos ==> #[trigger] ks[j] <= key
    &&& forall|j: int| pos <= j < ks.len() ==> key < #[trigger] ks[j]
}

/// The value stored under `key` among sorted keys and their values.
pub open spec fn lookup(ks: Seq<u32>, vs: Seq<u64>, key: u32) -> Option<u64> {
    if exists|i: int| 0 <= i < ks.len() && ks[i] == key {
        Some(vs[choose|i: int| 0 <= i < ks.len() && ks[i] == key])
    } else {
        None
    }
}

proof fn lemma_lookup_at(ks: Seq<u32>, vs: Seq<u64>, key: u32, i: int)
    requires
        strictly_sorted(ks),
        0 <= i < ks.len(),
        ks[i] == key,
    ensures
        lookup(ks, vs, key) == Some(vs[i]),
{
    let k = choose|k: int| 0 <= k < ks.len() && ks[k] == key;
    if k < i {
        assert(ks[k] < ks[i]);
    } else if i < k {
        assert(ks[i] < ks[k]);
    }
}

proof fn lemma_insert_sorted(ks: Seq<u32>, key: u32, pos: int)
    requires
        strictly_sorted(ks),
        lower_bound(ks, key, pos),
        !(pos < ks.len() && ks[pos] == key),
    ensures
        strictly_sorted(ks.insert(pos, key)),
{
    let nks = ks.insert(pos, key);
    assert forall|i: int, j: int| 0 <= i < j < nks.len() implies nks[i] < nks[j] by {
        if j < pos {
        } else if j == pos {
        } else if i < pos {
            assert(nks[j] == ks[j - 1]);
        } else if i == pos {
            assert(nks[j] == ks[j - 1]);
            if j - 1 > pos {
                assert(ks[pos] < ks[j - 1]);
            }
        } else {
            assert(nks[i] == ks[i - 1]);
            assert(nks[j] == ks[j - 1]);
        }
    }
}

proof fn lemma_update_lookup(ks: Seq<u32>, vs: Seq<u64>, key: u32, value: u64, pos: int)
    requires
        strictly_sorted(ks),
        0 <= pos < ks.len(),
        ks[pos] == key,
        vs.len() == ks.len(),
    ensures
        forall|k: u32| #[trigger] lookup(ks, vs.update(pos, value), k) == if k == key {
            Some(value)
        } else {
            lookup(ks, vs, k)
        },
{
    let nvs = vs.update(pos, value);
    assert forall|k: u32| #[trigger] lookup(ks, nvs, k) == if k == key {
        Some(value)
    } else {
        lookup(ks, vs, k)
    } by {
        if k == key {
            lemma_lookup_at(ks, nvs, key, pos);
        } else if exists|i: int| 0 <= i < ks.len() && ks[i] == k {
            let i = choose|i: int| 0 <= i < ks.len() && ks[i] == k;
            lemma_lookup_at(ks, nvs, k, i);
            lemma_lookup_at(ks, vs, k, i);
        }
    }
}

proof fn lemma_insert_lookup(ks: Seq<u32>, vs: Seq<u64>, key: u32, value: u64, pos: int)
    requires
        strictly_sorted(ks),
        lower_bound(ks, key, pos),
        !(pos < ks.len() && ks[pos] == key),
        vs.len() == ks.len(),
    ensures
        forall|k: u32| #[trigger] lookup(ks.insert(pos, key), vs.insert(pos, value), k) == if k == key {
            Some(value)
        } else {
            lookup(ks, vs, k)
        },
{
    let nks = ks.insert(pos, key);
    let nvs = vs.insert(pos, value);
    lemma_insert_sorted(ks, key, pos);
    assert forall|k: u32| #[trigger] lookup(nks, nvs, k) == if k == key {
        Some(value)
    } else {
        lookup(ks, vs, k)
    } by {
        if k == key {
            lemma_lookup_at(nks, nvs, key, pos);
        } else if exists|i: int| 0 <= i < ks.len() && ks[i] == k {
            let i = choose|i: int| 0 <= i < ks.len() && ks[i] == k;
            lemma_lookup_at(ks, vs, k, i);
            let ni = if i < pos { i } else { i + 1 };
            assert(nks[ni] == k);
            lemma_lookup_at(nks, nvs, k, ni);
        } else {
            if exists|i: int| 0 <= i < nks.len() && nks[i] == k {
                let i = choose|i: int| 0 <= i < nks.len() && nks[i] == k;
                if i < pos {
                    assert(ks[i] == k);
                } else if i > pos {
                    assert(ks[i - 1] == k);
                }
            }
        }
    }
}

/// Where `key` belongs among sorted keys.
fn find_lower_bound(ks: &Vec<u32>, key: u32) -> (r: usize)
    requires
        strictly_sorted(ks@),
    ensures
        lower_bound(ks@, key, r as int),
{
    let mut lo: usize = 0;
    let mut hi: usize = ks.len();
    while lo < hi
        invariant
            0 <= lo <= hi <= ks@.len(),
            strictly_sorted(ks@),
            forall|j: int| 0 <= j < lo ==> #[trigger] ks@[j] < key,
            forall|j: int| hi <= j < ks@.len() ==> key <= #[trigger] ks@[j],
        decreases hi - lo,
    {
        let mid = lo + (hi - lo) / 2;
        if ks[mid] < key {
            assert forall|j: int| 0 <= j < mid + 1 implies #[trigger] ks@[j] < key by {
                if j < mid {
                    assert(ks@[j] < ks@[mid as int]);
                }
            }
            lo = mid + 1;
        } else {
            assert forall|j: int| mid <= j < ks@.len() implies key <= #[trigger] ks@[j] by {
                if j > mid {
                    assert(ks@[mid as int] < ks@[j]);
                }
            }
            hi = mid;
        }
    }
    lo
}

impl LeafNode {
    pub open spec fn wf(&self) -> bool {
        self.keys@.len() == self.values@.len() && strictly_sorted(self.keys@)
    }

    /// An empty leaf.
    pub fn new() -> (r: LeafNode)
        ensures
            r.wf(),
            r.keys@.len() == 0,
    {
        LeafNode { keys: Vec::new(), values: Vec::new() }
    }

    /// The value stored under `key`, found by binary search.
    pub fn search(&self, key: u32) -> (r: Option<u64>)
        requires
            self.wf(),
        ensures
            r == lookup(self.keys@, self.values@, key),
    {
        let pos = find_lower_bound(&self.keys, key);
        if pos < self.keys.len() && self.keys[pos] == key {
            proof { lemma_lookup_at(self.keys@, self.values@, key, pos as int); }
            Some(self.values[pos])
        } else {
            proof {
                if exists|i: int| 0 <= i < self.keys@.len() && self.keys@[i] == key {
                    let i = choose|i: int| 0 <= i < self.keys@.len() && self.keys@[i] == key;
                    if i > pos {
                        assert(self.keys@[pos as int] < self.keys@[i]);
                    }
                }
            }
            None
        }
    }

    /// Stores `value` under `key`: in place when the key is there, else at
    /// its sorted position.
    pub fn insert(&mut self, key: u32, value: u64)
        requires
            old(self).wf(),
        ensures
            final(self).wf(),
            exists|pos: int|
                lower_bound(old(self).keys@, key, pos) && if pos < old(self).keys@.len()
                    && old(self).keys@[pos] == key {
                    final(self).keys@ == old(self).keys@ && final(self).values@ == old(
                        self,
                    ).values@.update(pos, value)
                } else {
                    final(self).keys@ == old(self).keys@.insert(pos, key) && final(self).values@
                        == old(self).values@.insert(pos, value)
                },
            forall|k: u32| #[trigger] lookup(final(self).keys@, final(self).values@, k) == if k == key {
                Some(value)
            } else {
                lookup(old(self).keys@, old(self).values@, k)
            },
            final(self).keys@.len() == old(self).keys@.len() + if lookup(
                old(self).keys@,
                old(self).values@,
                key,
            ) is Some {
                0int
            } else {
                1int
            },
    {
        let pos = find_lower_bound(&self.keys, key);
        let ghost ks = old(self).keys@;
        let ghost vs = old(self).values@;
        if pos < self.keys.len() && self.keys[pos] == key {
            self.values.set(pos, value);
            proof {
                lemma_lookup_at(ks, vs, key, pos as int);
                lemma_update_lookup(ks, vs, key, value, pos as int);
                assert(self.keys@ == ks && self.values@ == vs.update(pos as int, value));
            }
        } else {
            proof {
                if exists|i: int| 0 <= i < ks.len() && ks[i] == key {
                    let i = choose|i: int| 0 <= i < ks.len() && ks[i] == key;
                    if i > pos {
                        assert(ks[pos as int] < ks[i]);
                    }
                }
            }
            self.keys.insert(pos, key);
            self.values.insert(pos, value);
            proof {
                lemma_insert_sorted(ks, key, pos as int);
                lemma_insert_lookup(ks, vs, key, value, pos as int);
                assert(self.keys@ == ks.insert(pos as int, key));
                assert(self.values@ == vs.insert(pos as int, value));
            }
        }
    }

    /// Removes `key` and its value; tells whether the key was there.
    pub fn remove(&mut self, key: u32) -> (r: bool)
        requires
            old(self).wf(),
        ensures
            final(self).wf(),
            r == lookup(old(self).keys@, old(self).values@, key) is Some,
            r ==> exists|pos: int|
                0 <= pos < old(self).keys@.len() && old(self).keys@[pos] == key && final(self).keys@
                    == old(self).keys@.remove(pos) && final(self).values@ == old(self).values@.remove(pos),
            !r ==> final(self).keys@ == old(self).keys@ && final(self).values@ == old(self).values@,
            lookup(final(self).keys@, final(self).values@, key) is None,
            forall|k: u32|
                k != key ==> #[trigger] lookup(final(self).keys@, final(self).values@, k) == lookup(
                    old(self).keys@,
                    old(self).values@,
                    k,
                ),
    {
        let ghost vs = old(self).values@;
        let pos = find_lower_bound(&self.keys, key);
        let ghost ks = old(self).keys@;
        if pos < self.keys.len() && self.keys[pos] == key {
            self.keys.remove(pos);
            self.values.remove(pos);
            proof {
                let nks = self.keys@;
                assert forall|i: int, j: int| 0 <= i < j < nks.len() implies nks[i] < nks[j] by {
                    let i2 = if i < pos { i } else { i + 1 };
                    let j2 = if j < pos { j } else { j + 1 };
                    assert(nks[i] == ks[i2] && nks[j] == ks[j2]);
                }
                assert(ks[pos as int] == key);
                let nvs = self.values@;
                assert forall|k: u32| k != key implies #[trigger] lookup(nks, nvs, k) == lookup(ks, vs, k) by {
                    if exists|i: int| 0 <= i < ks.len() && ks[i] == k {
                        let i = choose|i: int| 0 <= i < ks.len() && ks[i] == k;
                        lemma_lookup_at(ks, vs, k, i);
                        let ni = if i < pos { i } else { i - 1 };
                        assert(i != pos);
                        assert(nks[ni] == k);
                        lemma_lookup_at(nks, nvs, k, ni);
                    } else if exists|i: int| 0 <= i < nks.len() && nks[i] == k {
                        let i = choose|i: int| 0 <= i < nks.len() && nks[i] == k;
                        let oi = if i < pos { i } else { i + 1 };
                        assert(ks[oi] == k);
                    }
                }
                if exists|j: int| 0 <= j < nks.len() && nks[j] == key {
                    let j = choose|j: int| 0 <= j < nks.len() && nks[j] == key;
                    if j < pos {
                        assert(ks[j] < ks[pos as int]);
                    } else {
                        assert(nks[j] == ks[j + 1]);
                        assert(ks[pos as int] < ks[j + 1]);
                    }
                }
            }
            true
        } else {
            proof {
                if exists|i: int| 0 <= i < ks.len() && ks[i] == key {
                    let i = choose|i: int| 0 <= i < ks.len() && ks[i] == key;
                    if i > pos {
                        assert(ks[pos as int] < ks[i]);
                    }
                }
            }
            false
        }
    }

    /// Moves the upper half of the entries into a new leaf and returns the
    /// first key of that half with it.
    pub fn split(&mut self) -> (r: (u32, LeafNode))
        requires
            old(self).wf(),
            old(self).keys@.len() >= 2,
        ensures
            ({
                let mid = old(self).keys@.len() / 2;
                &&& final(self).keys@ == old(self).keys@.subrange(0, mid as int)
                &&& final(self).values@ == old(self).values@.subrange(0, mid as int)
                &&& r.1.keys@ == old(self).keys@.subrange(mid as int, old(self).keys@.len() as int)
                &&& r.1.values@ == old(self).values@.subrange(mid as int, old(self).values@.len() as int)
                &&& r.0 == old(self).keys@[mid as int]
            }),
            final(self).wf(),
            r.1.wf(),
            final(self).keys@.len() >= 1,
            r.1.keys@.len() >= 1,
    {
        let mid = self.keys.len() / 2;
        let keys = self.keys.split_off(mid);
        let values = self.values.split_off(mid);
        let sep = keys[0];
        (sep, LeafNode { keys, values })
    }
}

impl InternalNode {
    pub open spec fn wf(&self) -> bool {
        self.children@.len() == self.keys@.len() + 1 && strictly_sorted(self.keys@)
    }

    /// The position of the child to descend into for `key`.
    pub fn child_index(&self, key: u32) -> (r: usize)
        requires
            strictly_sorted(self.keys@),
        ensures
            child_pos(self.keys@, key, r as int),
    {
        let mut lo: usize = 0;
        let mut hi: usize = self.keys.len();
        while lo < hi
            invariant
                0 <= lo <= hi <= self.keys@.len(),
                strictly_sorted(self.keys@),
                forall|j: int| 0 <= j < lo ==> #[trigger] self.keys@[j] <= key,
                forall|j: int| hi <= j < self.keys@.len() ==> key < #[trigger] self.keys@[j],
            decreases hi - lo,
        {
            let mid = lo + (hi - lo) / 2;
            if self.keys[mid] <= key {
                assert forall|j: int| 0 <= j < mid + 1 implies #[trigger] self.keys@[j] <= key by {
                    if j < mid {
                        assert(self.keys@[j] < self.keys@[mid as int]);
                    }
                }
                lo = mid + 1;
            } else {
                assert forall|j: int| mid <= j < self.keys@.len() implies key < #[trigger] self.keys@[j] by {
                    if j > mid {
                        assert(self.keys@[mid as int] < self.keys@[j]);
                    }
                }
                hi = mid;
            }
        }
        lo
    }

    /// Takes in the separator `key` and the new child to its right, at the
    /// position where `key` belongs.
    pub fn insert_child(&mut self, key: u32, child: u64)
        requires
            old(self).wf(),
        ensures
            exists|pos: int|
                lower_bound(old(self).keys@, key, pos) && final(self).keys@ == old(self).keys@.insert(
                    pos,
                    key,
                ) && final(self).children@ == old(self).children@.insert(pos + 1, child),
            final(self).children@.len() == final(self).keys@.len() + 1,
            !old(self).keys@.contains(key) ==> final(self).wf(),
    {
        let pos = find_lower_bound(&self.keys, key);
        let ghost ks = old(self).keys@;
        assert(pos < self.children.len());
        self.children.insert(pos + 1, child);
        self.keys.insert(pos, key);
        proof {
            if !ks.contains(key) {
                if pos < ks.len() && ks[pos as int] == key {
                    assert(ks.contains(key));
                }
                lemma_insert_sorted(ks, key, pos as int);
            }
        }
    }

    /// Moves the keys above the middle one and their children into a new
    /// node; returns the middle key, which leaves both nodes.
    pub fn split(&mut self) -> (r: (u32, InternalNode))
        requires
            old(self).wf(),
            old(self).keys@.len() >= 2,
        ensures
            ({
                let mid = old(self).keys@.len() / 2;
                &&& final(self).keys@ == old(self).keys@.subrange(0, mid as int)
                &&& final(self).children@ == old(self).children@.subrange(0, mid as int + 1)
                &&& r.1.keys@ == old(self).keys@.subrange(mid as int + 1, old(self).keys@.len() as int)
                &&& r.1.children@ == old(self).children@.subrange(
                    mid as int + 1,
                    old(self).children@.len() as int,
                )
                &&& r.0 == old(self).keys@[mid as int]
            }),
            final(self).wf(),
            r.1.wf(),
    {
        let mid = self.keys.len() / 2;
        let mut right_keys = self.keys.split_off(mid);
        let children = self.children.split_off(mid + 1);
        let sep = right_keys.remove(0);
        assert(right_keys@ =~= old(self).keys@.subrange(mid + 1, old(self).keys@.len() as int));
        (sep, InternalNode { keys: right_keys, children })
    }
}

/// How many pages the pool of a tree holds.
pub const POOL_CAPACITY: usize = 100;

/// A copy of a key vector.
fn copy_u32s(v: &Vec<u32>) -> (r: Vec<u32>)
    ensures
        r@ == v@,
{
    let mut out: Vec<u32> = Vec::new();
    let mut i: usize = 0;
    while i < v.len()
        invariant
            i <= v@.len(),
            out@ == v@.subrange(0, i as int),
        decreases v.len() - i,
    {
        out.push(v[i]);
        assert(out@ =~= v@.subrange(0, i + 1));
        i += 1;
    }
    assert(out@ =~= v@);
    out
}

/// A copy of a page id (or value) vector.
fn copy_u64s(v: &Vec<u64>) -> (r: Vec<u64>)
    ensures
        r@ == v@,
{
    let mut out: Vec<u64> = Vec::new();
    let mut i: usize = 0;
    while i < v.len()
        invariant
            i <= v@.len(),
            out@ == v@.subrange(0, i as int),
        decreases v.len() - i,
    {
        out.push(v[i]);
        assert(out@ =~= v@.subrange(0, i + 1));
        i += 1;
    }
    assert(out@ =~= v@);
    out
}

/// Whether sorted-key order holds, checked at run time.
fn is_strictly_sorted(ks: &Vec<u32>) -> (r: bool)
    ensures
        r == strictly_sorted(ks@),
{
    let mut i: usize = 1;
    while i < ks.len()
        invariant
            1 <= i,
            forall|a: int, b: int| 0 <= a < b < i && b < ks@.len() ==> ks@[a] < ks@[b],
        decreases ks.len() - i,
    {
        if ks[i - 1] >= ks[i] {
            return false;
        }
        assert forall|a: int, b: int| 0 <= a < b < i + 1 && b < ks@.len() implies ks@[a] < ks@[b] by {
            if b == i && a < i - 1 {
                assert(ks@[a] < ks@[i - 1]);
            }
        }
        i += 1;
    }
    true
}

/// The keys and values of a page that is a well-formed leaf.
pub open spec fn wf_leaf_page(p: PageView) -> Option<(Seq<u32>, Seq<u64>)> {
    match p {
        PageView::Leaf(ks, vs) => if ks.len() == vs.len() && strictly_sorted(ks) {
            Some((ks, vs))
        } else {
            None
        },
        _ => None,
    }
}

/// The well-formed leaf that a slot of `file` holds.
pub open spec fn leaf_in_slot(file: Seq<u8>, page_id: u64) -> Option<(Seq<u32>, Seq<u64>)> {
    match read_page_spec(file, page_id) {
        Ok(p) => wf_leaf_page(p),
        Err(_) => None,
    }
}

/// The well-formed leaf that fetching page `page_id` through a pool with
/// entries `pool` and capacity `capacity` over `file` gives without fail:
/// the cached page on a hit, or the slot's page on a miss while the pool has
/// room.
pub open spec fn leaf_state(pool: Seq<CacheEntry>, capacity: nat, file: Seq<u8>, page_id: u64) -> Option<(Seq<u32>, Seq<u64>)> {
    if resident(pool, page_id) {
        wf_leaf_page(pool[index_of(pool, page_id)].page)
    } else if pool.len() < capacity {
        leaf_in_slot(file, page_id)
    } else {
        None
    }
}

pub open spec fn ls_keys(pool: Seq<CacheEntry>, capacity: nat, file: Seq<u8>, page_id: u64) -> Seq<u32> {
    match leaf_state(pool, capacity, file, page_id) {
        Some((ks, _)) => ks,
        None => Seq::empty(),
    }
}

pub open spec fn ls_values(pool: Seq<CacheEntry>, capacity: nat, file: Seq<u8>, page_id: u64) -> Seq<u64> {
    match leaf_state(pool, capacity, file, page_id) {
        Some((_, vs)) => vs,
        None => Seq::empty(),
    }
}

/// The page is a leaf that maps `key` to `value`.
pub open spec fn leaf_maps(p: PageView, key: u32, value: u64) -> bool {
    p matches PageView::Leaf(ks, vs) && lookup(ks, vs, key) == Some(value)
}

/// The page is a leaf that does not hold `key`.
pub open spec fn leaf_lacks(p: PageView, key: u32) -> bool {
    p matches PageView::Leaf(ks, vs) && lookup(ks, vs, key) is None
}

/// The page content of a node.
pub open spec fn node_view(n: BPlusTreeNode) -> PageView {
    PageData::Node(n)@
}

pub open spec fn node_wf(n: BPlusTreeNode) -> bool {
    match n {
        BPlusTreeNode::Internal(i) => i.wf(),
        BPlusTreeNode::Leaf(l) => l.wf(),
    }
}

/// The index: its root page, its order (the most keys a node holds), its
/// height in levels, and the pool and engine its pages live in.
pub struct BPlusTree {
    root_page_id: u64,
    order: usize,
    height: usize,
    pool: BufferPool,
    engine: StorageEngine,
}

impl BPlusTree {
    pub closed spec fn wf(&self) -> bool {
        self.pool.wf() && self.order >= 1 && self.height >= 1 && self.pool.capacity() == POOL_CAPACITY
    }

    pub closed spec fn height_spec(&self) -> nat {
        self.height as nat
    }

    pub closed spec fn root_spec(&self) -> u64 {
        self.root_page_id
    }

    pub closed spec fn order_spec(&self) -> nat {
        self.order as nat
    }

    pub closed spec fn pool_view(&self) -> Seq<CacheEntry> {
        self.pool.view()
    }

    pub closed spec fn pool_capacity(&self) -> nat {
        self.pool.capacity()
    }

    /// The root, when a fetch of it gives a well-formed leaf without fail.
    pub open spec fn root_leaf(&self) -> Option<(Seq<u32>, Seq<u64>)> {
        leaf_state(self.pool_view(), self.pool_capacity(), self.engine_file(), self.root_spec())
    }

    /// An insertion of `key` that changes only the root, a leaf: the root
    /// leaf can be fetched without fail and takes the key without a split.
    pub open spec fn fits_in_root_leaf(&self, key: u32) -> bool {
        &&& self.root_leaf() is Some
        &&& if lookup(self.root_keys(), self.root_values(), key) is Some {
            self.root_keys().len() <= self.order_spec()
        } else {
            self.root_keys().len() < self.order_spec()
        }
    }

    pub open spec fn root_keys(&self) -> Seq<u32> {
        ls_keys(self.pool_view(), self.pool_capacity(), self.engine_file(), self.root_spec())
    }

    pub open spec fn root_values(&self) -> Seq<u64> {
        ls_values(self.pool_view(), self.pool_capacity(), self.engine_file(), self.root_spec())
    }

    /// A tree of one empty leaf, written to a newly allocated page of
    /// `engine`, with a pool of `POOL_CAPACITY` pages.
    pub fn new(order: usize, engine: StorageEngine) -> (r: Result<BPlusTree, Error>)
        requires
            order >= 1,
        ensures
            r is Ok <==> engine.next_page_id() < u64::MAX && addressable(engine.next_page_id()),
            r matches Ok(t) ==> t.wf() && t.height_spec() == 1 && t.order_spec() == order
                && t.root_spec() == engine.next_page_id() && t.pool_view().len() == 0
                && t.pool_capacity() == POOL_CAPACITY && t.root_leaf() == Some(
                (Seq::<u32>::empty(), Seq::<u64>::empty()),
            )
                && t.engine_next() == engine.next_page_id() + 1 && t.engine_file() == write_page_spec(
                engine.file(),
                engine.next_page_id(),
                PageView::Leaf(Seq::empty(), Seq::empty()),
            )->Ok_0 && read_page_spec(t.engine_file(), t.root_spec()) == Ok::<PageView, Error>(
                PageView::Leaf(Seq::empty(), Seq::empty()),
            ),
            r matches Err(e) ==> e == Error::IO,
    {
        let mut engine = engine;
        if engine.next_id() == u64::MAX {
            return Err(Error::IO);
        }
        let root = engine.allocate_page();
        let leaf = PageData::Node(BPlusTreeNode::Leaf(LeafNode::new()));
        assert(leaf@ == PageView::Leaf(Seq::empty(), Seq::empty())) by {
            if let PageView::Leaf(ks, vs) = leaf@ {
                assert(ks =~= Seq::<u32>::empty());
                assert(vs =~= Seq::<u64>::empty());
            }
        }
        assert(fits(leaf@)) by {
            assert(u32s_bytes(Seq::<u32>::empty()) == Seq::<u8>::empty());
            assert(u64s_bytes(Seq::<u64>::empty()) == Seq::<u8>::empty());
        }
        let ghost f0 = engine.file();
        match engine.write_page(root, &leaf) {
            Ok(()) => {},
            Err(e) => return Err(e),
        }
        proof { lemma_read_after_write(f0, root, leaf@); }
        let t = BPlusTree { root_page_id: root, order, height: 1, pool: BufferPool::new(POOL_CAPACITY), engine };
        assert(!resident(t.pool.view(), root));
        Ok(t)
    }

    pub fn root_page_id(&self) -> (r: u64)
        ensures
            r == self.root_spec(),
    {
        self.root_page_id
    }

    /// The number of levels: 1 for a tree that is a single leaf.
    pub fn height(&self) -> (r: usize)
        ensures
            r == self.height_spec(),
    {
        self.height
    }

    pub fn order(&self) -> (r: usize)
        ensures
            r == self.order_spec(),
    {
        self.order
    }

    pub fn pool(&self) -> (r: &BufferPool)
        ensures
            r.view() == self.pool_view(),
            r.capacity() == self.pool_capacity(),
    {
        &self.pool
    }

    pub closed spec fn engine_file(&self) -> Seq<u8> {
        self.engine.file()
    }

    pub closed spec fn engine_next(&self) -> u64 {
        self.engine.next_page_id()
    }

    pub fn engine(&self) -> (r: &StorageEngine)
        ensures
            r.file() == self.engine_file(),
            r.next_page_id() == self.engine_next(),
    {
        &self.engine
    }

    /// Fetches a node through the pool; fails with `CorruptPage` when the
    /// page is not a well-formed node.
    fn fetch_node(&mut self, page_id: u64) -> (r: Result<BPlusTreeNode, Error>)
        requires
            old(self).wf(),
        ensures
            final(self).wf(),
            final(self).root_page_id == old(self).root_page_id,
            final(self).order == old(self).order,
            final(self).height == old(self).height,
            keeps_pinned(old(self).pool.view(), final(self).pool.view()),
            final(self).pool.capacity() == old(self).pool.capacity(),
            r != Err::<BPlusTreeNode, Error>(Error::KeyNotFound),
            r matches Ok(n) ==> node_wf(n) && final(self).pool.view().last().page_id == page_id
                && final(self).pool.view().last().page == node_view(n) && final(self).pool.view().len()
                > 0,
            leaf_state(old(self).pool.view(), old(self).pool.capacity(), old(self).engine.file(), page_id)
                is Some ==> (r matches Ok(BPlusTreeNode::Leaf(l)) && l.keys@ == ls_keys(
                old(self).pool.view(),
                old(self).pool.capacity(),
                old(self).engine.file(),
                page_id,
            ) && l.values@ == ls_values(
                old(self).pool.view(),
                old(self).pool.capacity(),
                old(self).engine.file(),
                page_id,
            ) && leaf_state(final(self).pool.view(), final(self).pool.capacity(), final(self).engine.file(), page_id)
                == leaf_state(old(self).pool.view(), old(self).pool.capacity(), old(self).engine.file(), page_id)),
    {
        let ghost s0 = self.pool.view();
        let ghost f0 = self.engine.file();
        let got = self.pool.get_page(page_id, &mut self.engine);
        proof { lemma_get_keeps_pinned(s0, self.pool.capacity(), f0, page_id); }
        match got {
            Ok(()) => {},
            Err(e) => return Err(e),
        }
        let ghost s = self.pool.view();
        proof {
            if resident(s0, page_id) {
                assert(s[s.len() - 1] == s0[index_of(s0, page_id)]);
            } else {
                if let Ok(p) = read_page_spec(f0, page_id) {
                    if s0.len() < self.pool.capacity() {
                        assert(s == s0.push(fresh(page_id, p)));
                        assert(s[s.len() - 1].page == p);
                    }
                }
            }
        }
        match self.pool.page(page_id) {
            Some(bp) => match &bp.page {
                PageData::Node(BPlusTreeNode::Leaf(l)) => {
                    let keys = copy_u32s(&l.keys);
                    let values = copy_u64s(&l.values);
                    if keys.len() != values.len() || !is_strictly_sorted(&keys) {
                        return Err(Error::CorruptPage);
                    }
                    Ok(BPlusTreeNode::Leaf(LeafNode { keys, values }))
                },
                PageData::Node(BPlusTreeNode::Internal(n)) => {
                    let keys = copy_u32s(&n.keys);
                    let children = copy_u64s(&n.children);
                    if children.len() == 0 || children.len() - 1 != keys.len() || !is_strictly_sorted(&keys) {
                        return Err(Error::CorruptPage);
                    }
                    Ok(BPlusTreeNode::Internal(InternalNode { keys, children }))
                },
                PageData::Records(_) => Err(Error::CorruptPage),
            },
            None => Err(Error::CorruptPage),
        }
    }

    /// The value stored under `key`, if any: descends from the root to a
    /// leaf and searches it. Fails with `CorruptPage` on a page that is not
    /// a node, or on a path longer than the tree's height.
    pub fn search(&mut self, key: u32) -> (r: Result<Option<u64>, Error>)
        requires
            old(self).wf(),
        ensures
            final(self).wf(),
            final(self).root_spec() == old(self).root_spec(),
            final(self).height_spec() == old(self).height_spec(),
            final(self).order_spec() == old(self).order_spec(),
            r matches Ok(v) ==> (final(self).pool_view().last().page matches PageView::Leaf(ks, vs)
                && v == lookup(ks, vs, key)),
            old(self).root_leaf() is Some ==> r == Ok::<Option<u64>, Error>(
                lookup(old(self).root_keys(), old(self).root_values(), key),
            ) && final(self).root_leaf() == old(self).root_leaf(),
    {
        let ghost root_leaf = self.root_leaf() is Some;
        let mut page_id = self.root_page_id;
        let mut depth: usize = 0;
        while depth < self.height
            invariant
                self.wf(),
                self.root_page_id == old(self).root_page_id,
                self.height == old(self).height,
                self.order == old(self).order,
                self.pool.capacity() == old(self).pool.capacity(),
                root_leaf == (old(self).root_leaf() is Some),
                depth > 0 ==> !root_leaf,
                depth == 0 ==> page_id == old(self).root_page_id && self.pool.view() == old(
                    self,
                ).pool.view() && self.engine.file() == old(self).engine.file(),
            decreases self.height - depth,
        {
            let got = self.fetch_node(page_id);
            proof {
                if depth == 0 && root_leaf {
                    assert(got matches Ok(BPlusTreeNode::Leaf(l)));
                }
            }
            match got {
                Ok(BPlusTreeNode::Leaf(l)) => {
                    return Ok(l.search(key));
                },
                Ok(BPlusTreeNode::Internal(n)) => {
                    let i = n.child_index(key);
                    page_id = n.children[i];
                },
                Err(e) => return Err(e),
            }
            depth += 1;
        }
        Err(Error::CorruptPage)
    }

    /// Makes a page resident, stores `node` in it and pins it, recording it
    /// in `pinned`.
    fn store_node(&mut self, page_id: u64, node: BPlusTreeNode, pinned: &mut Vec<u64>) -> (r: Result<(), Error>)
        requires
            old(self).wf(),
        ensures
            final(self).wf(),
            final(self).root_page_id == old(self).root_page_id,
            final(self).order == old(self).order,
            final(self).height == old(self).height,
            forall|e: CacheEntry|
                #[trigger] old(self).pool.view().contains(e) && e.is_pinned && e.page_id != page_id
                    ==> final(self).pool.view().contains(e),
            r != Err::<(), Error>(Error::KeyNotFound),
            resident(old(self).pool.view(), page_id) ==> r is Ok,
            r is Ok ==> final(self).pool.view().contains(
                CacheEntry { page_id, page: node_view(node), is_dirty: true, is_pinned: true },
            ),
    {
        let ghost s0 = self.pool.view();
        let ghost f0 = self.engine.file();
        let got = self.pool.get_page(page_id, &mut self.engine);
        proof { lemma_get_keeps_pinned(s0, self.pool.capacity(), f0, page_id); }
        match got {
            Ok(()) => {},
            Err(e) => return Err(e),
        }
        let ghost s1 = self.pool.view();
        let ghost nv = node_view(node);
        let ghost k = index_of(s1, page_id);
        self.pool.set_page(page_id, PageData::Node(node));
        proof {
            let s2 = self.pool.view();
            assert(s2[k].page_id == page_id);
            lemma_at_index_unique(s2, page_id, k);
        }
        self.pool.pin_page(page_id);
        pinned.push(page_id);
        proof {
            let t = self.pool.view();
            assert(t[k] == CacheEntry { page_id, page: nv, is_dirty: true, is_pinned: true });
            assert(t.contains(t[k]));
            assert forall|e: CacheEntry|
                #[trigger] s0.contains(e) && e.is_pinned && e.page_id != page_id implies t.contains(e) by {
                assert(s1.contains(e));
                let i = choose|i: int| 0 <= i < s1.len() && s1[i] == e;
                assert(i != k);
                assert(t[i] == e);
            }
        }
        Ok(())
    }

    /// Allocates a page and stores `node` in it, pinned. Fails with
    /// `CorruptPage` when the new page is already in use by this operation.
    fn store_new_node(&mut self, node: BPlusTreeNode, pinned: &mut Vec<u64>) -> (r: Result<u64, Error>)
        requires
            old(self).wf(),
        ensures
            final(self).wf(),
            final(self).root_page_id == old(self).root_page_id,
            final(self).order == old(self).order,
            final(self).height == old(self).height,
            keeps_pinned(old(self).pool.view(), final(self).pool.view()),
            r matches Ok(id) ==> final(self).pool.view().contains(
                CacheEntry { page_id: id, page: node_view(node), is_dirty: true, is_pinned: true },
            ) && forall|e: CacheEntry|
                #[trigger] old(self).pool.view().contains(e) && e.is_pinned ==> e.page_id != id,
    {
        if self.engine.next_id() == u64::MAX {
            return Err(Error::IO);
        }
        let page_id = self.engine.allocate_page();
        let ghost s0 = self.pool.view();
        let ghost f0 = self.engine.file();
        let got = self.pool.get_page(page_id, &mut self.engine);
        proof { lemma_get_keeps_pinned(s0, self.pool.capacity(), f0, page_id); }
        match got {
            Ok(()) => {},
            Err(e) => return Err(e),
        }
        let ghost s1 = self.pool.view();
        let in_use = match self.pool.page(page_id) {
            Some(bp) => bp.is_pinned,
            None => true,
        };
        if in_use {
            return Err(Error::CorruptPage);
        }
        proof {
            assert forall|e: CacheEntry| #[trigger] s0.contains(e) && e.is_pinned implies e.page_id
                != page_id by {
                assert(s1.contains(e));
                let i = choose|i: int| 0 <= i < s1.len() && s1[i] == e;
                if e.page_id == page_id {
                    lemma_at_index_unique(s1, page_id, i);
                }
            }
        }
        match self.store_node(page_id, node, pinned) {
            Ok(()) => Ok(page_id),
            Err(e) => Err(e),
        }
    }

    /// Descends from the root to the leaf for `key`, pinning each page on the
    /// way and recording it in `pinned`. Returns the internal pages passed,
    /// from the root down, the leaf's page and the leaf.
    fn descend(&mut self, key: u32, pinned: &mut Vec<u64>) -> (r: Result<(Vec<u64>, u64, LeafNode), Error>)
        requires
            old(self).wf(),
        ensures
            final(self).wf(),
            final(self).root_page_id == old(self).root_page_id,
            final(self).order == old(self).order,
            final(self).height == old(self).height,
            keeps_pinned(old(self).pool.view(), final(self).pool.view()),
            !(r matches Err(e) && e == Error::KeyNotFound),
            r matches Ok((path, leaf_id, leaf)) ==> leaf.wf() && path@.len() < old(self).height && (
            path@.len() == 0 ==> leaf_id == old(self).root_page_id) && (path@.len() > 0 ==> path@[0]
                == old(self).root_page_id) && exists|e: CacheEntry|
                #[trigger] final(self).pool.view().contains(e) && e.is_pinned && e.page_id == leaf_id
                    && e.page == node_view(BPlusTreeNode::Leaf(leaf)),
            old(self).root_leaf() is Some ==> (r matches Ok((path, leaf_id, leaf)) && path@.len() == 0
                && leaf_id == old(self).root_page_id && leaf.keys@ == old(self).root_keys()
                && leaf.values@ == old(self).root_values()),
    {
        let ghost root_leaf = self.root_leaf() is Some;
        let mut path: Vec<u64> = Vec::new();
        let mut page_id = self.root_page_id;
        let mut depth: usize = 0;
        while depth < self.height
            invariant
                self.wf(),
                self.root_page_id == old(self).root_page_id,
                self.order == old(self).order,
                self.height == old(self).height,
                keeps_pinned(old(self).pool.view(), self.pool.view()),
                path@.len() == depth,
                depth == 0 ==> page_id == self.root_page_id,
                root_leaf == (old(self).root_leaf() is Some),
                depth > 0 ==> !root_leaf,
                self.pool.capacity() == old(self).pool.capacity(),
                depth == 0 ==> self.pool.view() == old(self).pool.view() && self.engine.file() == old(
                    self,
                ).engine.file(),
                depth > 0 ==> path@[0] == self.root_page_id,
            decreases self.height - depth,
        {
            let ghost s0 = self.pool.view();
            let got = self.fetch_node(page_id);
            proof {
                if depth == 0 && root_leaf {
                    assert(got matches Ok(BPlusTreeNode::Leaf(l)));
                }
            }
            let node = match got {
                Ok(n) => n,
                Err(e) => return Err(e),
            };
            let ghost s1 = self.pool.view();
            self.pool.pin_page(page_id);
            pinned.push(page_id);
            proof {
                let t = self.pool.view();
                let k = s1.len() - 1;
                lemma_at_index_unique(s1, page_id, k);
                assert(t[k].page_id == page_id && t[k].is_pinned && t[k].page == node_view(node));
                assert(t.contains(t[k]));
                assert forall|e: CacheEntry| #[trigger] s1.contains(e) && e.is_pinned implies t.contains(
                    e,
                ) by {
                    let i = choose|i: int| 0 <= i < s1.len() && s1[i] == e;
                    assert(t[i] == e);
                }
            }
            match node {
                BPlusTreeNode::Leaf(l) => {
                    return Ok((path, page_id, l));
                },
                BPlusTreeNode::Internal(n) => {
                    let i = n.child_index(key);
                    path.push(page_id);
                    page_id = n.children[i];
                },
            }
            depth += 1;
        }
        Err(Error::CorruptPage)
    }

    /// Lets every page in `pinned` be evicted again.
    fn unpin_all(&mut self, pinned: &Vec<u64>)
        requires
            old(self).wf(),
        ensures
            final(self).wf(),
            final(self).root_page_id == old(self).root_page_id,
            final(self).order == old(self).order,
            final(self).height == old(self).height,
            final(self).pool.view().len() == old(self).pool.view().len(),
            forall|i: int|
                0 <= i < old(self).pool.view().len() ==> #[trigger] final(self).pool.view()[i].page
                    == old(self).pool.view()[i].page && final(self).pool.view()[i].page_id == old(
                    self,
                ).pool.view()[i].page_id,
            final(self).engine == old(self).engine,
    {
        let mut i: usize = 0;
        while i < pinned.len()
            invariant
                self.wf(),
                self.root_page_id == old(self).root_page_id,
                self.order == old(self).order,
                self.height == old(self).height,
                self.pool.view().len() == old(self).pool.view().len(),
                forall|j: int|
                    0 <= j < old(self).pool.view().len() ==> #[trigger] self.pool.view()[j].page == old(
                        self,
                    ).pool.view()[j].page && self.pool.view()[j].page_id == old(self).pool.view()[j].page_id,
                self.engine == old(self).engine,
            decreases pinned.len() - i,
        {
            let ghost s0 = self.pool.view();
            self.pool.unpin_page(pinned[i]);
            proof {
                assert forall|j: int| 0 <= j < s0.len() implies #[trigger] self.pool.view()[j].page
                    == s0[j].page && self.pool.view()[j].page_id == s0[j].page_id by {}
            }
            i += 1;
        }
    }

    /// Stores `value` under `key`, splitting every node that overflows on the
    /// way up; a split of the root adds a new root, one level higher. Every
    /// page that the insertion reads or writes stays pinned until it ends,
    /// whether it succeeds or fails. On success a cached leaf maps `key` to
    /// `value`.
    pub fn insert(&mut self, key: u32, value: u64) -> (r: Result<(), Error>)
        requires
            old(self).wf(),
        ensures
            final(self).wf(),
            final(self).order_spec() == old(self).order_spec(),
            old(self).height_spec() <= final(self).height_spec() <= old(self).height_spec() + 1,
            final(self).height_spec() == old(self).height_spec() ==> final(self).root_spec() == old(
                self,
            ).root_spec(),
            r is Ok ==> exists|i: int|
                0 <= i < final(self).pool_view().len() && #[trigger] leaf_maps(
                    final(self).pool_view()[i].page,
                    key,
                    value,
                ),
            old(self).fits_in_root_leaf(key) ==> r is Ok && final(self).root_spec() == old(
                self,
            ).root_spec() && final(self).height_spec() == old(self).height_spec()
                && final(self).root_leaf() is Some && forall|k: u32| #[trigger]
                lookup(final(self).root_keys(), final(self).root_values(), k) == if k == key {
                    Some(value)
                } else {
                    lookup(old(self).root_keys(), old(self).root_values(), k)
                } && final(self).root_keys().len() == old(self).root_keys().len() + if lookup(
                old(self).root_keys(),
                old(self).root_values(),
                key,
            ) is Some {
                0int
            } else {
                1int
            },
    {
        let mut pinned: Vec<u64> = Vec::new();
        let r = self.insert_pinned(key, value, &mut pinned);
        let ghost s0 = self.pool.view();
        let ghost mid_keys = self.root_keys();
        let ghost mid_values = self.root_values();
        let ghost mid_leaf = self.root_leaf();
        let ghost mid_resident = resident(s0, self.root_page_id);
        self.unpin_all(&pinned);
        proof {
            if mid_resident {
                let j = index_of(s0, self.root_page_id);
                let t = self.pool.view();
                assert(at_index(s0, self.root_page_id, j));
                assert(t[j].page == s0[j].page);
                assert(at_index(t, self.root_page_id, j));
                lemma_at_index_unique(t, self.root_page_id, j);
                assert(self.root_leaf() == mid_leaf);
                assert(self.root_keys() == mid_keys);
                assert(self.root_values() == mid_values);
            }
        }
        proof {
            if r is Ok {
                let e = choose|e: CacheEntry| #[trigger] s0.contains(e) && leaf_maps(e.page, key, value);
                let i = choose|i: int| 0 <= i < s0.len() && s0[i] == e;
                assert(self.pool.view()[i].page == s0[i].page);
                assert(0 <= i < self.pool_view().len() && leaf_maps(self.pool_view()[i].page, key, value));
            }
        }
        r
    }

    fn insert_pinned(&mut self, key: u32, value: u64, pinned: &mut Vec<u64>) -> (r: Result<(), Error>)
        requires
            old(self).wf(),
        ensures
            final(self).wf(),
            final(self).order == old(self).order,
            old(self).height <= final(self).height <= old(self).height + 1,
            final(self).height == old(self).height ==> final(self).root_page_id == old(
                self,
            ).root_page_id,
            r is Ok ==> exists|e: CacheEntry|
                #[trigger] final(self).pool.view().contains(e) && leaf_maps(e.page, key, value),
            old(self).fits_in_root_leaf(key) ==> r is Ok && final(self).root_page_id == old(
                self,
            ).root_page_id && final(self).height == old(self).height && resident(
                final(self).pool.view(),
                final(self).root_page_id,
            ) && final(self).root_leaf() is Some
                && forall|k: u32| #[trigger]
                lookup(final(self).root_keys(), final(self).root_values(), k) == if k == key {
                    Some(value)
                } else {
                    lookup(old(self).root_keys(), old(self).root_values(), k)
                } && final(self).root_keys().len() == old(self).root_keys().len() + if lookup(
                old(self).root_keys(),
                old(self).root_values(),
                key,
            ) is Some {
                0int
            } else {
                1int
            },
    {
        let ghost in_root = self.fits_in_root_leaf(key);
        let ghost rks = self.root_keys();
        let ghost rvs = self.root_values();
        let (mut path, leaf_id, mut leaf) = match self.descend(key, pinned) {
            Ok(x) => x,
            Err(e) => return Err(e),
        };
        leaf.insert(key, value);
        if leaf.keys.len() <= self.order {
            let ghost nv = node_view(BPlusTreeNode::Leaf(leaf));
            let ghost nks = leaf.keys@;
            let ghost nvs = leaf.values@;
            proof {
                if in_root {
                    let d = choose|e: CacheEntry|
                        #[trigger] self.pool.view().contains(e) && e.is_pinned && e.page_id == leaf_id;
                    let j = choose|j: int| 0 <= j < self.pool.view().len() && self.pool.view()[j] == d;
                    assert(at_index(self.pool.view(), leaf_id, j));
                }
            }
            let r = self.store_node(leaf_id, BPlusTreeNode::Leaf(leaf), pinned);
            proof {
                if r is Ok {
                    let e = CacheEntry { page_id: leaf_id, page: nv, is_dirty: true, is_pinned: true };
                    assert(self.pool.view().contains(e));
                    assert(leaf_maps(e.page, key, value));
                    if in_root {
                        let t = self.pool.view();
                        let j = choose|j: int| 0 <= j < t.len() && t[j] == e;
                        lemma_at_index_unique(t, leaf_id, j);
                        assert(self.root_leaf() == Some((nks, nvs)));
                    }
                }
            }
            return r;
        }
        proof {
            if in_root {
                if lookup(rks, rvs, key) is Some {
                    assert(leaf.keys@.len() == rks.len());
                } else {
                    assert(leaf.keys@.len() == rks.len() + 1);
                }
            }
            assert(!in_root);
        }
        let ghost ks = leaf.keys@;
        let ghost vs = leaf.values@;
        let (first, right) = leaf.split();
        let ghost lv = node_view(BPlusTreeNode::Leaf(leaf));
        let ghost rv = node_view(BPlusTreeNode::Leaf(right));
        proof {
            assert(lookup(ks, vs, key) == Some(value));
            let i = choose|i: int| 0 <= i < ks.len() && ks[i] == key;
            assert(vs[i] == value);
            let mid = ks.len() / 2;
            if i < mid {
                assert(leaf.keys@[i] == key);
                lemma_lookup_at(leaf.keys@, leaf.values@, key, i);
                assert(leaf_maps(lv, key, value));
            } else {
                assert(right.keys@[i - mid] == key);
                lemma_lookup_at(right.keys@, right.values@, key, i - mid);
                assert(leaf_maps(rv, key, value));
            }
            assert(leaf_maps(lv, key, value) || leaf_maps(rv, key, value));
        }
        let ghost before_right = self.pool.view();
        let right_id = match self.store_new_node(BPlusTreeNode::Leaf(right), pinned) {
            Ok(id) => id,
            Err(e) => return Err(e),
        };
        let ghost re = CacheEntry { page_id: right_id, page: rv, is_dirty: true, is_pinned: true };
        proof {
            let e = choose|e: CacheEntry| #[trigger] before_right.contains(e) && e.is_pinned && e.page_id
                == leaf_id;
            assert(e.page_id != right_id);
        }
        match self.store_node(leaf_id, BPlusTreeNode::Leaf(leaf), pinned) {
            Ok(()) => {},
            Err(e) => return Err(e),
        }
        let ghost le = CacheEntry { page_id: leaf_id, page: lv, is_dirty: true, is_pinned: true };
        let ghost tracked_entry = if leaf_maps(lv, key, value) { le } else { re };
        assert(self.pool.view().contains(tracked_entry));
        let mut sep = first;
        let mut new_child = right_id;
        let mut child_id = leaf_id;
        while path.len() > 0
            invariant
                !old(self).fits_in_root_leaf(key),
                self.wf(),
                self.root_page_id == old(self).root_page_id,
                self.order == old(self).order,
                self.height == old(self).height,
                path@.len() == 0 ==> child_id == old(self).root_page_id,
                path@.len() > 0 ==> path@[0] == old(self).root_page_id,
                self.pool.view().contains(tracked_entry),
                tracked_entry.is_pinned,
                leaf_maps(tracked_entry.page, key, value),
            decreases path.len(),
        {
            let parent_id = match path.pop() {
                Some(id) => id,
                None => return Err(Error::CorruptPage),
            };
            let mut parent = match self.fetch_node(parent_id) {
                Ok(BPlusTreeNode::Internal(n)) => n,
                Ok(BPlusTreeNode::Leaf(_)) => return Err(Error::CorruptPage),
                Err(e) => return Err(e),
            };
            proof {
                let t = self.pool.view();
                let i = choose|i: int| 0 <= i < t.len() && t[i] == tracked_entry;
                if tracked_entry.page_id == parent_id {
                    lemma_at_index_unique(t, parent_id, t.len() - 1);
                    lemma_at_index_unique(t, parent_id, i);
                }
            }
            parent.insert_child(sep, new_child);
            if !is_strictly_sorted(&parent.keys) {
                return Err(Error::CorruptPage);
            }
            assert(tracked_entry.page_id != parent_id);
            if parent.keys.len() <= self.order {
                let r = self.store_node(parent_id, BPlusTreeNode::Internal(parent), pinned);
                assert(self.pool.view().contains(tracked_entry));
                return r;
            }
            let (up, right_node) = parent.split();
            let right_node_id = match self.store_new_node(BPlusTreeNode::Internal(right_node), pinned) {
                Ok(id) => id,
                Err(e) => return Err(e),
            };
            match self.store_node(parent_id, BPlusTreeNode::Internal(parent), pinned) {
                Ok(()) => {},
                Err(e) => return Err(e),
            }
            sep = up;
            new_child = right_node_id;
            child_id = parent_id;
        }
        if self.height == usize::MAX {
            return Err(Error::IO);
        }
        let new_root = InternalNode { keys: vec![sep], children: vec![child_id, new_child] };
        let root_id = match self.store_new_node(BPlusTreeNode::Internal(new_root), pinned) {
            Ok(id) => id,
            Err(e) => return Err(e),
        };
        self.root_page_id = root_id;
        self.height = self.height + 1;
        assert(self.pool.view().contains(tracked_entry));
        Ok(())
    }

    /// Removes `key` from its leaf; fails with `KeyNotFound` when it is not
    /// there. Nodes are not merged.
    pub fn delete(&mut self, key: u32) -> (r: Result<(), Error>)
        requires
            old(self).wf(),
        ensures
            final(self).wf(),
            final(self).root_spec() == old(self).root_spec(),
            final(self).height_spec() == old(self).height_spec(),
            r is Ok || r == Err::<(), Error>(Error::KeyNotFound) ==> exists|i: int|
                0 <= i < final(self).pool_view().len() && #[trigger] leaf_lacks(
                    final(self).pool_view()[i].page,
                    key,
                ),
            old(self).root_leaf() is Some ==> (if lookup(
                old(self).root_keys(),
                old(self).root_values(),
                key,
            ) is Some {
                r is Ok
            } else {
                r == Err::<(), Error>(Error::KeyNotFound)
            }) && final(self).root_leaf() is Some && forall|k: u32| #[trigger]
                lookup(final(self).root_keys(), final(self).root_values(), k) == if k == key {
                    None
                } else {
                    lookup(old(self).root_keys(), old(self).root_values(), k)
                },
    {
        let ghost in_root = self.root_leaf() is Some;
        let ghost rks = self.root_keys();
        let ghost rvs = self.root_values();
        let mut pinned: Vec<u64> = Vec::new();
        let ghost mut w = CacheEntry { page_id: 0, page: PageView::Records(Seq::empty()), is_dirty: false, is_pinned: false };
        let r = match self.descend(key, &mut pinned) {
            Ok((_, leaf_id, mut leaf)) => {
                let ghost before = self.pool.view();
                let ghost old_leaf = node_view(BPlusTreeNode::Leaf(leaf));
                proof {
                    let d = choose|e: CacheEntry| #[trigger] before.contains(e) && e.is_pinned && e.page_id
                        == leaf_id && e.page == old_leaf;
                    let j = choose|j: int| 0 <= j < before.len() && before[j] == d;
                    lemma_at_index_unique(before, leaf_id, j);
                    if in_root {
                        assert(self.root_leaf() == Some((rks, rvs)));
                    }
                }
                if leaf.remove(key) {
                    let ghost nv = node_view(BPlusTreeNode::Leaf(leaf));
                    let ghost nks = leaf.keys@;
                    let ghost nvs = leaf.values@;
                    let r = self.store_node(leaf_id, BPlusTreeNode::Leaf(leaf), &mut pinned);
                    proof {
                        if in_root {
                            assert(lookup(rks, rvs, key) is Some);
                            assert(r is Ok);
                        }
                        if r is Ok {
                            let e = CacheEntry { page_id: leaf_id, page: nv, is_dirty: true, is_pinned: true };
                            assert(self.pool.view().contains(e) && leaf_lacks(e.page, key));
                            w = e;
                            if in_root {
                                let t = self.pool.view();
                                let j = choose|j: int| 0 <= j < t.len() && t[j] == e;
                                lemma_at_index_unique(t, leaf_id, j);
                                assert(self.root_leaf() == Some((nks, nvs)));
                                assert(self.root_leaf() is Some && (forall|k: u32| #[trigger]
                                    lookup(self.root_keys(), self.root_values(), k) == if k == key {
                                        None
                                    } else {
                                        lookup(rks, rvs, k)
                                    }));
                            }
                        }
                    }
                    r
                } else {
                    proof {
                        let e = choose|e: CacheEntry| #[trigger] before.contains(e) && e.is_pinned && e.page_id
                            == leaf_id && e.page == old_leaf;
                        assert(before.contains(e) && leaf_lacks(e.page, key));
                        w = e;
                        if in_root {
                            assert(lookup(rks, rvs, key) is None);
                            assert(self.root_leaf() is Some && (forall|k: u32| #[trigger]
                                    lookup(self.root_keys(), self.root_values(), k) == if k == key {
                                        None
                                    } else {
                                        lookup(rks, rvs, k)
                                    }));
                        }
                    }
                    Err(Error::KeyNotFound)
                }
            },
            Err(e) => {
                proof { assert(!in_root); }
                Err(e)
            },
        };
        let ghost s0 = self.pool.view();
        let ghost mid_leaf = self.root_leaf();
        let ghost mid_keys = self.root_keys();
        let ghost mid_values = self.root_values();
        let ghost mid_resident = resident(s0, self.root_page_id);
        proof {
            if in_root {
                assert(mid_resident);
                assert(if lookup(rks, rvs, key) is Some {
                    r is Ok
                } else {
                    r == Err::<(), Error>(Error::KeyNotFound)
                });
                assert(mid_leaf is Some && (forall|k: u32| #[trigger]
                                    lookup(mid_keys, mid_values, k) == if k == key {
                                        None
                                    } else {
                                        lookup(rks, rvs, k)
                                    }));
            }
        }
        self.unpin_all(&pinned);
        proof {
            if mid_resident {
                let j = index_of(s0, self.root_page_id);
                let t = self.pool.view();
                assert(at_index(s0, self.root_page_id, j));
                assert(t[j].page == s0[j].page);
                assert(at_index(t, self.root_page_id, j));
                lemma_at_index_unique(t, self.root_page_id, j);
                assert(self.root_leaf() == mid_leaf);
            }
        }
        proof {
            if r is Ok || r == Err::<(), Error>(Error::KeyNotFound) {
                assert(s0.contains(w) && leaf_lacks(w.page, key));
                let i = choose|i: int| 0 <= i < s0.len() && s0[i] == w;
                assert(self.pool.view()[i].page == s0[i].page);
                assert(0 <= i < self.pool_view().len() && leaf_lacks(self.pool_view()[i].page, key));
            }
        }
        r
    }

    /// Appends the keys of the subtree at `page_id`, leaf by leaf from left
    /// to right, to `out`.
    fn collect_keys(&mut self, page_id: u64, levels: usize, out: &mut Vec<u32>) -> (r: Result<(), Error>)
        requires
            old(self).wf(),
        ensures
            final(self).wf(),
            final(self).root_page_id == old(self).root_page_id,
            final(self).order == old(self).order,
            final(self).height == old(self).height,
            levels >= 1 && leaf_state(old(self).pool.view(), old(self).pool.capacity(), old(self).engine.file(), page_id)
                is Some ==> r is Ok && final(out)@ == old(out)@ + ls_keys(
                old(self).pool.view(),
                old(self).pool.capacity(),
                old(self).engine.file(),
                page_id,
            ) && leaf_state(final(self).pool.view(), final(self).pool.capacity(), final(self).engine.file(), page_id)
                == leaf_state(old(self).pool.view(), old(self).pool.capacity(), old(self).engine.file(), page_id),
        decreases levels,
    {
        if levels == 0 {
            return Err(Error::CorruptPage);
        }
        match self.fetch_node(page_id) {
            Ok(BPlusTreeNode::Leaf(l)) => {
                let ghost start = out@;
                let mut i: usize = 0;
                while i < l.keys.len()
                    invariant
                        i <= l.keys@.len(),
                        out@ == start + l.keys@.subrange(0, i as int),
                    decreases l.keys.len() - i,
                {
                    out.push(l.keys[i]);
                    assert(out@ =~= start + l.keys@.subrange(0, i + 1));
                    i += 1;
                }
                assert(l.keys@.subrange(0, i as int) =~= l.keys@);
                Ok(())
            },
            Ok(BPlusTreeNode::Internal(n)) => {
                let mut i: usize = 0;
                while i < n.children.len()
                    invariant
                        levels >= 1,
                        leaf_state(old(self).pool.view(), old(self).pool.capacity(), old(self).engine.file(), page_id)
                            is None,
                        self.wf(),
                        self.root_page_id == old(self).root_page_id,
                        self.order == old(self).order,
                        self.height == old(self).height,
                    decreases n.children.len() - i,
                {
                    match self.collect_keys(n.children[i], levels - 1, out) {
                        Ok(()) => {},
                        Err(e) => return Err(e),
                    }
                    i += 1;
                }
                Ok(())
            },
            Err(e) => Err(e),
        }
    }

    /// The keys of every leaf, from the leftmost leaf to the rightmost.
    pub fn keys_in_order(&mut self) -> (r: Result<Vec<u32>, Error>)
        requires
            old(self).wf(),
        ensures
            final(self).wf(),
            final(self).root_spec() == old(self).root_spec(),
            final(self).height_spec() == old(self).height_spec(),
            final(self).order_spec() == old(self).order_spec(),
            old(self).root_leaf() is Some ==> (r matches Ok(v) && v@ == old(self).root_keys()
                && strictly_sorted(v@) && final(self).root_leaf() == old(self).root_leaf()),
    {
        let mut out: Vec<u32> = Vec::new();
        let root = self.root_page_id;
        let r = self.collect_keys(root, self.height, &mut out);
        proof {
            if old(self).root_leaf() is Some {
                assert(out@ =~= old(self).root_keys());
            }
        }
        match r {
            Ok(()) => Ok(out),
            Err(e) => Err(e),
        }
    }

    /// Writes every resident page to its slot. Afterwards every resident
    /// page is clean and its slot reads back as its cached content.
    pub fn flush(&mut self) -> (r: Result<(), Error>)
        requires
            old(self).wf(),
        ensures
            final(self).wf(),
            final(self).root_spec() == old(self).root_spec(),
            final(self).height_spec() == old(self).height_spec(),
            final(self).order_spec() == old(self).order_spec(),
            final(self).pool_view().len() == old(self).pool_view().len(),
            forall|j: int|
                0 <= j < old(self).pool_view().len() ==> #[trigger] final(self).pool_view()[j].page_id
                    == old(self).pool_view()[j].page_id && final(self).pool_view()[j].page == old(
                    self,
                ).pool_view()[j].page,
            r is Ok <==> forall|j: int|
                0 <= j < old(self).pool_view().len() ==> fits(#[trigger] old(self).pool_view()[j].page)
                    && addressable(old(self).pool_view()[j].page_id),
            r is Ok ==> forall|j: int|
                0 <= j < final(self).pool_view().len() ==> !(#[trigger] final(self).pool_view()[j]).is_dirty
                    && read_page_spec(final(self).engine_file(), final(self).pool_view()[j].page_id)
                    == Ok::<PageView, Error>(final(self).pool_view()[j].page),
    {
        let ids = self.pool.resident_pages();
        let ghost s0 = self.pool.view();
        let mut i: usize = 0;
        while i < ids.len()
            invariant
                self.wf(),
                self.root_page_id == old(self).root_page_id,
                self.height == old(self).height,
                self.order == old(self).order,
                s0 == old(self).pool.view(),
                ids@ == s0.map_values(|e: CacheEntry| e.page_id),
                i <= ids@.len(),
                self.pool.view().len() == s0.len(),
                forall|j: int|
                    0 <= j < s0.len() ==> #[trigger] self.pool.view()[j].page_id == s0[j].page_id
                        && self.pool.view()[j].page == s0[j].page,
                forall|j: int| 0 <= j < i ==> fits(#[trigger] s0[j].page) && addressable(s0[j].page_id),
                forall|j: int|
                    0 <= j < i ==> !(#[trigger] self.pool.view()[j]).is_dirty && read_page_spec(
                        self.engine.file(),
                        self.pool.view()[j].page_id,
                    ) == Ok::<PageView, Error>(self.pool.view()[j].page),
            decreases ids.len() - i,
        {
            let ghost s = self.pool.view();
            let ghost f = self.engine.file();
            let id = ids[i];
            proof {
                assert(s[i as int].page_id == id);
                lemma_at_index_unique(s, id, i as int);
            }
            match self.pool.write_page_to_disk(id, &mut self.engine) {
                Ok(_) => {},
                Err(e) => {
                    assert(!(fits(s0[i as int].page) && addressable(s0[i as int].page_id)));
                    return Err(e);
                },
            }
            proof {
                let t = self.pool.view();
                assert(write_page_spec(f, id, s[i as int].page) is Ok);
                lemma_read_after_write(f, id, s[i as int].page);
                assert forall|j: int| 0 <= j < i + 1 implies !(#[trigger] t[j]).is_dirty && read_page_spec(
                    self.engine.file(),
                    t[j].page_id,
                ) == Ok::<PageView, Error>(t[j].page) by {
                    if j < i {
                        assert(t[j] == s[j]);
                        assert(s[j].page_id != id);
                        lemma_write_keeps_other_slots(f, id, s[j].page_id, s[i as int].page);
                    }
                }
            }
            i += 1;
        }
        Ok(())
    }
}

} // verus!
