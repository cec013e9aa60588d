//! The on-disk layout of a page slot.
//!
//! Every integer is eight little-endian bytes. A slot starts with a kind tag
//! (0: record page, 1: internal node, 2: leaf node). A record page then holds
//! its record count and each record: id, field count, and each field as two
//! strings; a string is its UTF-8 length followed by its UTF-8 bytes. A node
//! holds its key count and keys, then its child (or value) count and those.
//! The encoding is zero-padded to `PAGE_SIZE` bytes.
use vstd::prelude::*;
use vstd::utf8::{decode_utf8, encode_utf8, encode_utf8_decode_utf8, encode_utf8_valid_utf8, valid_utf8};

use crate::b_plus_tree::{BPlusTreeNode, InternalNode, LeafNode};
use crate::error::Error;
use crate::page::{records_view, Page, PageData, PageView, PAGE_SIZE};
use crate::record::{fields_view, FieldsView, Record, RecordView};

verus! {

pub const TAG_RECORDS: u64 = 0;
pub const TAG_INTERNAL: u64 = 1;
pub const TAG_LEAF: u64 = 2;

/// The eight little-endian bytes of `x`.
pub open spec fn u64_bytes(x: u64) -> Seq<u8> {
    seq![
        x as u8,
        (x >> 8u64) as u8,
        (x >> 16u64) as u8,
        (x >> 24u64) as u8,
        (x >> 32u64) as u8,
        (x >> 40u64) as u8,
        (x >> 48u64) as u8,
        (x >> 56u64) as u8,
    ]
}

pub open spec fn le_u64(b0: u8, b1: u8, b2: u8, b3: u8, b4: u8, b5: u8, b6: u8, b7: u8) -> u64 {
    (b0 as u64) | ((b1 as u64) << 8u64) | ((b2 as u64) << 16u64) | ((b3 as u64) << 24u64)
        | ((b4 as u64) << 32u64) | ((b5 as u64) << 40u64) | ((b6 as u64) << 48u64) | ((b7 as u64)
        << 56u64)
}

/// The integer whose little-endian bytes start at `pos`.
pub open spec fn u64_at(b: Seq<u8>, pos: int) -> u64 {
    le_u64(b[pos], b[pos + 1], b[pos + 2], b[pos + 3], b[pos + 4], b[pos + 5], b[pos + 6], b[pos + 7])
}

pub open spec fn str_bytes(s: Seq<char>) -> Seq<u8> {
    u64_bytes(encode_utf8(s).len() as u64) + encode_utf8(s)
}

pub open spec fn field_bytes(f: (Seq<char>, Seq<char>)) -> Seq<u8> {
    str_bytes(f.0) + str_bytes(f.1)
}

pub open spec fn fields_bytes(fs: FieldsView) -> Seq<u8>
    decreases fs.len(),
{
    if fs.len() == 0 {
        Seq::empty()
    } else {
        fields_bytes(fs.drop_last()) + field_bytes(fs.last())
    }
}

pub open spec fn record_bytes(r: RecordView) -> Seq<u8> {
    u64_bytes(r.id as u64) + u64_bytes(r.fields.len() as u64) + fields_bytes(r.fields)
}

pub open spec fn records_bytes(rs: Seq<RecordView>) -> Seq<u8>
    decreases rs.len(),
{
    if rs.len() == 0 {
        Seq::empty()
    } else {
        records_bytes(rs.drop_last()) + record_bytes(rs.last())
    }
}

pub open spec fn u32s_bytes(ks: Seq<u32>) -> Seq<u8>
    decreases ks.len(),
{
    if ks.len() == 0 {
        Seq::empty()
    } else {
        u32s_bytes(ks.drop_last()) + u64_bytes(ks.last() as u64)
    }
}

pub open spec fn u64s_bytes(vs: Seq<u64>) -> Seq<u8>
    decreases vs.len(),
{
    if vs.len() == 0 {
        Seq::empty()
    } else {
        u64s_bytes(vs.drop_last()) + u64_bytes(vs.last())
    }
}

pub open spec fn node_bytes(tag: u64, keys: Seq<u32>, vals: Seq<u64>) -> Seq<u8> {
    u64_bytes(tag) + u64_bytes(keys.len() as u64) + u32s_bytes(keys) + u64_bytes(vals.len() as u64)
        + u64s_bytes(vals)
}

/// The natural encoding of a page, before padding.
pub open spec fn page_bytes(p: PageView) -> Seq<u8> {
    match p {
        PageView::Records(rs) => u64_bytes(TAG_RECORDS) + u64_bytes(rs.len() as u64) + records_bytes(
            rs,
        ),
        PageView::Internal(ks, cs) => node_bytes(TAG_INTERNAL, ks, cs),
        PageView::Leaf(ks, vs) => node_bytes(TAG_LEAF, ks, vs),
    }
}

/// `b` followed by zeros up to `PAGE_SIZE` bytes.
pub open spec fn pad(b: Seq<u8>) -> Seq<u8> {
    b + Seq::new((PAGE_SIZE - b.len()) as nat, |i: int| 0u8)
}

/// The full slot image of a page whose encoding fits.
pub open spec fn page_image(p: PageView) -> Seq<u8> {
    pad(page_bytes(p))
}

pub open spec fn fits(p: PageView) -> bool {
    page_bytes(p).len() <= PAGE_SIZE
}

pub open spec fn parse_u64(b: Seq<u8>, pos: int) -> Option<(u64, int)> {
    if 0 <= pos && pos + 8 <= b.len() {
        Some((u64_at(b, pos), pos + 8))
    } else {
        None
    }
}

pub open spec fn parse_u32(b: Seq<u8>, pos: int) -> Option<(u32, int)> {
    match parse_u64(b, pos) {
        Some((v, p)) => if v <= u32::MAX {
            Some((v as u32, p))
        } else {
            None
        },
        None => None,
    }
}

pub open spec fn parse_str(b: Seq<u8>, pos: int) -> Option<(Seq<char>, int)> {
    match parse_u64(b, pos) {
        Some((n, p)) => if p + n <= b.len() && valid_utf8(b.subrange(p, p + n)) {
            Some((decode_utf8(b.subrange(p, p + n)), p + n))
        } else {
            None
        },
        None => None,
    }
}

pub open spec fn parse_field(b: Seq<u8>, pos: int) -> Option<((Seq<char>, Seq<char>), int)> {
    match parse_str(b, pos) {
        Some((k, p)) => match parse_str(b, p) {
            Some((v, q)) => Some(((k, v), q)),
            None => None,
        },
        None => None,
    }
}

pub open spec fn parse_fields(b: Seq<u8>, pos: int, n: nat) -> Option<(FieldsView, int)>
    decreases n,
{
    if n == 0 {
        Some((Seq::empty(), pos))
    } else {
        match parse_fields(b, pos, (n - 1) as nat) {
            Some((fs, p)) => match parse_field(b, p) {
                Some((f, q)) => Some((fs.push(f), q)),
                None => None,
            },
            None => None,
        }
    }
}

pub open spec fn parse_record(b: Seq<u8>, pos: int) -> Option<(RecordView, int)> {
    match parse_u32(b, pos) {
        Some((id, p)) => match parse_u64(b, p) {
            Some((n, q)) => match parse_fields(b, q, n as nat) {
                Some((fs, e)) => Some((RecordView { id, fields: fs }, e)),
                None => None,
            },
            None => None,
        },
        None => None,
    }
}

pub open spec fn parse_records(b: Seq<u8>, pos: int, n: nat) -> Option<(Seq<RecordView>, int)>
    decreases n,
{
    if n == 0 {
        Some((Seq::empty(), pos))
    } else {
        match parse_records(b, pos, (n - 1) as nat) {
            Some((rs, p)) => match parse_record(b, p) {
                Some((r, q)) => Some((rs.push(r), q)),
                None => None,
            },
            None => None,
        }
    }
}

pub open spec fn parse_u32s(b: Seq<u8>, pos: int, n: nat) -> Option<(Seq<u32>, int)>
    decreases n,
{
    if n == 0 {
        Some((Seq::empty(), pos))
    } else {
        match parse_u32s(b, pos, (n - 1) as nat) {
            Some((ks, p)) => match parse_u32(b, p) {
                Some((k, q)) => Some((ks.push(k), q)),
                None => None,
            },
            None => None,
        }
    }
}

pub open spec fn parse_u64s(b: Seq<u8>, pos: int, n: nat) -> Option<(Seq<u64>, int)>
    decreases n,
{
    if n == 0 {
        Some((Seq::empty(), pos))
    } else {
        match parse_u64s(b, pos, (n - 1) as nat) {
            Some((vs, p)) => match parse_u64(b, p) {
                Some((v, q)) => Some((vs.push(v), q)),
                None => None,
            },
            None => None,
        }
    }
}

/// The keys and the children (or values) of a node whose tag has been read.
pub open spec fn parse_node_body(b: Seq<u8>, pos: int) -> Option<(Seq<u32>, Seq<u64>)> {
    match parse_u64(b, pos) {
        Some((nk, p)) => match parse_u32s(b, p, nk as nat) {
            Some((ks, q)) => match parse_u64(b, q) {
                Some((nv, r)) => match parse_u64s(b, r, nv as nat) {
                    Some((vs, _)) => Some((ks, vs)),
                    None => None,
                },
                None => None,
            },
            None => None,
        },
        None => None,
    }
}

/// What a slot image decodes to; `None` for a corrupt slot.
pub open spec fn parse_page(b: Seq<u8>) -> Option<PageView> {
    if b.len() != PAGE_SIZE {
        None
    } else {
        match parse_u64(b, 0) {
            Some((tag, p)) => if tag == TAG_RECORDS {
                match parse_u64(b, p) {
                    Some((n, q)) => match parse_records(b, q, n as nat) {
                        Some((rs, _)) => Some(PageView::Records(rs)),
                        None => None,
                    },
                    None => None,
                }
            } else if tag == TAG_INTERNAL {
                match parse_node_body(b, p) {
                    Some((ks, cs)) => Some(PageView::Internal(ks, cs)),
                    None => None,
                }
            } else if tag == TAG_LEAF {
                match parse_node_body(b, p) {
                    Some((ks, vs)) => Some(PageView::Leaf(ks, vs)),
                    None => None,
                }
            } else {
                None
            },
            None => None,
        }
    }
}

/// `e` stands in `b` at position `pos`.
pub open spec fn stands_at(b: Seq<u8>, pos: int, e: Seq<u8>) -> bool {
    0 <= pos && pos + e.len() <= b.len() && b.subrange(pos, pos + e.len()) == e
}

proof fn lemma_stands_concat(b: Seq<u8>, pos: int, e1: Seq<u8>, e2: Seq<u8>)
    requires
        stands_at(b, pos, e1 + e2),
    ensures
        stands_at(b, pos, e1),
        stands_at(b, pos + e1.len(), e2),
{
    let e = e1 + e2;
    assert forall|i: int| 0 <= i < e.len() implies b[pos + i] == e[i] by {
        assert(b.subrange(pos, pos + e.len())[i] == b[pos + i]);
    }
    assert(b.subrange(pos, pos + e1.len()) =~= e1);
    assert forall|i: int| 0 <= i < e2.len() implies b[pos + e1.len() + i] == e2[i] by {
        assert(b[pos + (e1.len() + i)] == e[e1.len() + i]);
    }
    assert(b.subrange(pos + e1.len(), pos + e1.len() + e2.len()) =~= e2);
}

proof fn lemma_le_u64(x: u64)
    ensures
        le_u64(
            x as u8,
            (x >> 8u64) as u8,
            (x >> 16u64) as u8,
            (x >> 24u64) as u8,
            (x >> 32u64) as u8,
            (x >> 40u64) as u8,
            (x >> 48u64) as u8,
            (x >> 56u64) as u8,
        ) == x,
{
    assert((x as u8) as u64 | ((((x >> 8u64) as u8) as u64) << 8u64) | ((((x >> 16u64) as u8) as u64)
        << 16u64) | ((((x >> 24u64) as u8) as u64) << 24u64) | ((((x >> 32u64) as u8) as u64)
        << 32u64) | ((((x >> 40u64) as u8) as u64) << 40u64) | ((((x >> 48u64) as u8) as u64)
        << 48u64) | ((((x >> 56u64) as u8) as u64) << 56u64) == x) by (bit_vector);
}

proof fn lemma_parse_u64(b: Seq<u8>, pos: int, x: u64)
    requires
        stands_at(b, pos, u64_bytes(x)),
    ensures
        parse_u64(b, pos) == Some((x, pos + 8)),
{
    let e = u64_bytes(x);
    assert forall|i: int| 0 <= i < 8 implies b[pos + i] == e[i] by {
        assert(b.subrange(pos, pos + 8)[i] == b[pos + i]);
    }
    lemma_le_u64(x);
}

proof fn lemma_parse_str(b: Seq<u8>, pos: int, s: Seq<char>)
    requires
        stands_at(b, pos, str_bytes(s)),
        b.len() <= PAGE_SIZE,
    ensures
        parse_str(b, pos) == Some((s, pos + str_bytes(s).len())),
{
    let u = encode_utf8(s);
    lemma_stands_concat(b, pos, u64_bytes(u.len() as u64), u);
    lemma_parse_u64(b, pos, u.len() as u64);
    assert(b.subrange(pos + 8, pos + 8 + u.len()) == u);
    encode_utf8_valid_utf8(s);
    encode_utf8_decode_utf8(s);
}

proof fn lemma_parse_fields(b: Seq<u8>, pos: int, fs: FieldsView)
    requires
        stands_at(b, pos, fields_bytes(fs)),
        b.len() <= PAGE_SIZE,
    ensures
        parse_fields(b, pos, fs.len()) == Some((fs, pos + fields_bytes(fs).len())),
    decreases fs.len(),
{
    if fs.len() > 0 {
        let init = fs.drop_last();
        let f = fs.last();
        lemma_stands_concat(b, pos, fields_bytes(init), field_bytes(f));
        lemma_parse_fields(b, pos, init);
        let p = pos + fields_bytes(init).len();
        lemma_stands_concat(b, p, str_bytes(f.0), str_bytes(f.1));
        lemma_parse_str(b, p, f.0);
        lemma_parse_str(b, p + str_bytes(f.0).len(), f.1);
        assert(init.push(f) =~= fs);
    }
}

proof fn lemma_len_fields(fs: FieldsView)
    ensures
        fields_bytes(fs).len() >= fs.len(),
    decreases fs.len(),
{
    if fs.len() > 0 {
        lemma_len_fields(fs.drop_last());
    }
}

proof fn lemma_len_records(rs: Seq<RecordView>)
    ensures
        records_bytes(rs).len() >= rs.len(),
    decreases rs.len(),
{
    if rs.len() > 0 {
        lemma_len_records(rs.drop_last());
    }
}

proof fn lemma_len_u32s(ks: Seq<u32>)
    ensures
        u32s_bytes(ks).len() == 8 * ks.len(),
    decreases ks.len(),
{
    if ks.len() > 0 {
        lemma_len_u32s(ks.drop_last());
    }
}

proof fn lemma_len_u64s(vs: Seq<u64>)
    ensures
        u64s_bytes(vs).len() == 8 * vs.len(),
    decreases vs.len(),
{
    if vs.len() > 0 {
        lemma_len_u64s(vs.drop_last());
    }
}

proof fn lemma_parse_record(b: Seq<u8>, p: int, r: RecordView)
    requires
        stands_at(b, p, record_bytes(r)),
        b.len() <= PAGE_SIZE,
    ensures
        parse_record(b, p) == Some((r, p + record_bytes(r).len())),
{
    let head = u64_bytes(r.id as u64) + u64_bytes(r.fields.len() as u64);
    lemma_stands_concat(b, p, head, fields_bytes(r.fields));
    lemma_stands_concat(b, p, u64_bytes(r.id as u64), u64_bytes(r.fields.len() as u64));
    lemma_parse_u64(b, p, r.id as u64);
    lemma_parse_u64(b, p + 8, r.fields.len() as u64);
    lemma_len_fields(r.fields);
    assert((r.fields.len() as u64) as nat == r.fields.len());
    lemma_parse_fields(b, p + 16, r.fields);
}

proof fn lemma_parse_records(b: Seq<u8>, pos: int, rs: Seq<RecordView>)
    requires
        stands_at(b, pos, records_bytes(rs)),
        b.len() <= PAGE_SIZE,
    ensures
        parse_records(b, pos, rs.len()) == Some((rs, pos + records_bytes(rs).len())),
    decreases rs.len(),
{
    if rs.len() > 0 {
        let init = rs.drop_last();
        let r = rs.last();
        lemma_stands_concat(b, pos, records_bytes(init), record_bytes(r));
        lemma_parse_records(b, pos, init);
        let p = pos + records_bytes(init).len();
        lemma_parse_record(b, p, r);
        assert(init.push(r) =~= rs);
    }
}

proof fn lemma_parse_u32s(b: Seq<u8>, pos: int, ks: Seq<u32>)
    requires
        stands_at(b, pos, u32s_bytes(ks)),
    ensures
        parse_u32s(b, pos, ks.len()) == Some((ks, pos + u32s_bytes(ks).len())),
    decreases ks.len(),
{
    if ks.len() > 0 {
        let init = ks.drop_last();
        lemma_stands_concat(b, pos, u32s_bytes(init), u64_bytes(ks.last() as u64));
        lemma_parse_u32s(b, pos, init);
        lemma_parse_u64(b, pos + u32s_bytes(init).len(), ks.last() as u64);
        assert(init.push(ks.last()) =~= ks);
    }
}

proof fn lemma_parse_u64s(b: Seq<u8>, pos: int, vs: Seq<u64>)
    requires
        stands_at(b, pos, u64s_bytes(vs)),
    ensures
        parse_u64s(b, pos, vs.len()) == Some((vs, pos + u64s_bytes(vs).len())),
    decreases vs.len(),
{
    if vs.len() > 0 {
        let init = vs.drop_last();
        lemma_stands_concat(b, pos, u64s_bytes(init), u64_bytes(vs.last()));
        lemma_parse_u64s(b, pos, init);
        lemma_parse_u64(b, pos + u64s_bytes(init).len(), vs.last());
        assert(init.push(vs.last()) =~= vs);
    }
}

proof fn lemma_parse_node(b: Seq<u8>, tag: u64, ks: Seq<u32>, vs: Seq<u64>)
    requires
        stands_at(b, 0, node_bytes(tag, ks, vs)),
        b.len() <= PAGE_SIZE,
    ensures
        parse_u64(b, 0) == Some((tag, 8int)),
        parse_node_body(b, 8) == Some((ks, vs)),
{
    let e1 = u64_bytes(tag);
    let e2 = u64_bytes(ks.len() as u64);
    let e3 = u32s_bytes(ks);
    let e4 = u64_bytes(vs.len() as u64);
    let e5 = u64s_bytes(vs);
    lemma_stands_concat(b, 0, e1 + e2 + e3 + e4, e5);
    lemma_stands_concat(b, 0, e1 + e2 + e3, e4);
    lemma_stands_concat(b, 0, e1 + e2, e3);
    lemma_stands_concat(b, 0, e1, e2);
    lemma_parse_u64(b, 0, tag);
    lemma_parse_u64(b, 8, ks.len() as u64);
    lemma_len_u32s(ks);
    lemma_len_u64s(vs);
    assert((ks.len() as u64) as nat == ks.len());
    assert((vs.len() as u64) as nat == vs.len());
    lemma_parse_u32s(b, 16, ks);
    lemma_parse_u64(b, 16 + e3.len() as int, vs.len() as u64);
    lemma_parse_u64s(b, 24 + e3.len() as int, vs);
}

/// Decoding the slot image of a page that fits gives the page back.
pub proof fn lemma_decode_encode(p: PageView)
    requires
        fits(p),
    ensures
        parse_page(page_image(p)) == Some(p),
{
    let e = page_bytes(p);
    let b = page_image(p);
    assert(b.subrange(0, e.len() as int) =~= e);
    assert(stands_at(b, 0, e));
    match p {
        PageView::Records(rs) => {
            let h = u64_bytes(TAG_RECORDS) + u64_bytes(rs.len() as u64);
            lemma_stands_concat(b, 0, h, records_bytes(rs));
            lemma_stands_concat(b, 0, u64_bytes(TAG_RECORDS), u64_bytes(rs.len() as u64));
            lemma_parse_u64(b, 0, TAG_RECORDS);
            lemma_parse_u64(b, 8, rs.len() as u64);
            lemma_len_records(rs);
            assert((rs.len() as u64) as nat == rs.len());
            lemma_parse_records(b, 16, rs);
        },
        PageView::Internal(ks, cs) => {
            lemma_parse_node(b, TAG_INTERNAL, ks, cs);
        },
        PageView::Leaf(ks, vs) => {
            lemma_parse_node(b, TAG_LEAF, ks, vs);
        },
    }
}

fn push_u64(out: &mut Vec<u8>, x: u64)
    ensures
        final(out)@ == old(out)@ + u64_bytes(x),
{
    out.push(x as u8);
    out.push((x >> 8u64) as u8);
    out.push((x >> 16u64) as u8);
    out.push((x >> 24u64) as u8);
    out.push((x >> 32u64) as u8);
    out.push((x >> 40u64) as u8);
    out.push((x >> 48u64) as u8);
    out.push((x >> 56u64) as u8);
    assert(out@ =~= old(out)@ + u64_bytes(x));
}

fn push_str(out: &mut Vec<u8>, s: &String)
    ensures
        final(out)@ == old(out)@ + str_bytes(s@),
{
    let bytes: &[u8] = s.as_str().as_bytes();
    push_u64(out, bytes.len() as u64);
    let ghost start = out@;
    let mut i: usize = 0;
    while i < bytes.len()
        invariant
            i <= bytes@.len(),
            bytes@ == encode_utf8(s@),
            out@ == start + bytes@.subrange(0, i as int),
        decreases bytes.len() - i,
    {
        out.push(bytes[i]);
        assert(bytes@.subrange(0, i + 1) =~= bytes@.subrange(0, i as int).push(bytes@[i as int]));
        i += 1;
    }
    assert(bytes@.subrange(0, i as int) =~= bytes@);
    assert(out@ =~= old(out)@ + str_bytes(s@));
}

fn push_fields(out: &mut Vec<u8>, fs: &Vec<(String, String)>)
    ensures
        final(out)@ == old(out)@ + fields_bytes(fields_view(fs@)),
{
    let mut i: usize = 0;
    while i < fs.len()
        invariant
            i <= fs@.len(),
            out@ == old(out)@ + fields_bytes(fields_view(fs@.subrange(0, i as int))),
        decreases fs.len() - i,
    {
        let ghost before = out@;
        push_str(out, &fs[i].0);
        push_str(out, &fs[i].1);
        proof {
            let prev = fields_view(fs@.subrange(0, i as int));
            let next = fields_view(fs@.subrange(0, i + 1));
            assert(next.drop_last() =~= prev);
            assert(next.last() == (fs@[i as int].0@, fs@[i as int].1@));
            assert(out@ =~= old(out)@ + fields_bytes(next));
        }
        i += 1;
    }
    assert(fs@.subrange(0, i as int) =~= fs@);
}

fn push_records(out: &mut Vec<u8>, rs: &Vec<Record>)
    ensures
        final(out)@ == old(out)@ + records_bytes(records_view(rs@)),
{
    let mut i: usize = 0;
    while i < rs.len()
        invariant
            i <= rs@.len(),
            out@ == old(out)@ + records_bytes(records_view(rs@.subrange(0, i as int))),
        decreases rs.len() - i,
    {
        let r = &rs[i];
        push_u64(out, r.id as u64);
        push_u64(out, r.fields.len() as u64);
        push_fields(out, &r.fields);
        proof {
            let prev = records_view(rs@.subrange(0, i as int));
            let next = records_view(rs@.subrange(0, i + 1));
            assert(next.drop_last() =~= prev);
            assert(next.last() == r@);
            assert(out@ =~= old(out)@ + records_bytes(next));
        }
        i += 1;
    }
    assert(rs@.subrange(0, i as int) =~= rs@);
}

fn push_u32s(out: &mut Vec<u8>, ks: &Vec<u32>)
    ensures
        final(out)@ == old(out)@ + u32s_bytes(ks@),
{
    let mut i: usize = 0;
    while i < ks.len()
        invariant
            i <= ks@.len(),
            out@ == old(out)@ + u32s_bytes(ks@.subrange(0, i as int)),
        decreases ks.len() - i,
    {
        push_u64(out, ks[i] as u64);
        proof {
            let next = ks@.subrange(0, i + 1);
            assert(next.drop_last() =~= ks@.subrange(0, i as int));
            assert(out@ =~= old(out)@ + u32s_bytes(next));
        }
        i += 1;
    }
    assert(ks@.subrange(0, i as int) =~= ks@);
}

fn push_u64s(out: &mut Vec<u8>, vs: &Vec<u64>)
    ensures
        final(out)@ == old(out)@ + u64s_bytes(vs@),
{
    let mut i: usize = 0;
    while i < vs.len()
        invariant
            i <= vs@.len(),
            out@ == old(out)@ + u64s_bytes(vs@.subrange(0, i as int)),
        decreases vs.len() - i,
    {
        push_u64(out, vs[i]);
        proof {
            let next = vs@.subrange(0, i + 1);
            assert(next.drop_last() =~= vs@.subrange(0, i as int));
            assert(out@ =~= old(out)@ + u64s_bytes(next));
        }
        i += 1;
    }
    assert(vs@.subrange(0, i as int) =~= vs@);
}

fn push_node(out: &mut Vec<u8>, tag: u64, keys: &Vec<u32>, vals: &Vec<u64>)
    ensures
        final(out)@ == old(out)@ + node_bytes(tag, keys@, vals@),
{
    push_u64(out, tag);
    push_u64(out, keys.len() as u64);
    push_u32s(out, keys);
    push_u64(out, vals.len() as u64);
    push_u64s(out, vals);
    assert(out@ =~= old(out)@ + node_bytes(tag, keys@, vals@));
}

/// Encodes a page into its full slot image, or fails when the encoding does
/// not fit in a page.
pub fn encode_page(page: &PageData) -> (r: Result<Vec<u8>, Error>)
    ensures
        match r {
            Ok(image) => fits(page@) && image@ == page_image(page@),
            Err(e) => !fits(page@) && e == Error::PageSizeExceeded(page_bytes(page@).len() as usize),
        },
{
    let mut out: Vec<u8> = Vec::new();
    match page {
        PageData::Records(p) => {
            push_u64(&mut out, TAG_RECORDS);
            push_u64(&mut out, p.records.len() as u64);
            push_records(&mut out, &p.records);
        },
        PageData::Node(BPlusTreeNode::Internal(n)) => {
            push_node(&mut out, TAG_INTERNAL, &n.keys, &n.children);
        },
        PageData::Node(BPlusTreeNode::Leaf(n)) => {
            push_node(&mut out, TAG_LEAF, &n.keys, &n.values);
        },
    }
    assert(out@ =~= page_bytes(page@));
    if out.len() > PAGE_SIZE {
        return Err(Error::PageSizeExceeded(out.len()));
    }
    let ghost payload = out@;
    while out.len() < PAGE_SIZE
        invariant
            payload.len() <= out@.len() <= PAGE_SIZE,
            out@ == payload + Seq::new((out@.len() - payload.len()) as nat, |i: int| 0u8),
        decreases PAGE_SIZE - out.len(),
    {
        out.push(0u8);
        assert(out@ =~= payload + Seq::new((out@.len() - payload.len()) as nat, |i: int| 0u8));
    }
    assert(out@ =~= pad(payload));
    Ok(out)
}

/// Relies on `String::from_utf8`: it succeeds exactly on valid UTF-8, and the
/// string then holds the characters that the bytes encode.
#[verifier::external_body]
fn string_from_utf8(bytes: Vec<u8>) -> (r: Option<String>)
    ensures
        r is Some <==> valid_utf8(bytes@),
        r matches Some(s) ==> s@ == decode_utf8(bytes@),
{
    String::from_utf8(bytes).ok()
}

fn read_u64(b: &[u8], pos: usize) -> (r: Option<(u64, usize)>)
    requires
        b@.len() <= PAGE_SIZE,
    ensures
        match r {
            Some((v, p)) => parse_u64(b@, pos as int) == Some((v, p as int)),
            None => parse_u64(b@, pos as int) is None,
        },
{
    if pos > b.len() || b.len() - pos < 8 {
        return None;
    }
    let v = (b[pos] as u64) | ((b[pos + 1] as u64) << 8u64) | ((b[pos + 2] as u64) << 16u64) | ((b[pos
        + 3] as u64) << 24u64) | ((b[pos + 4] as u64) << 32u64) | ((b[pos + 5] as u64) << 40u64) | ((b[pos
        + 6] as u64) << 48u64) | ((b[pos + 7] as u64) << 56u64);
    Some((v, pos + 8))
}

fn read_u32(b: &[u8], pos: usize) -> (r: Option<(u32, usize)>)
    requires
        b@.len() <= PAGE_SIZE,
    ensures
        match r {
            Some((v, p)) => parse_u32(b@, pos as int) == Some((v, p as int)),
            None => parse_u32(b@, pos as int) is None,
        },
{
    match read_u64(b, pos) {
        Some((v, p)) => if v <= 0xffff_ffffu64 {
            Some((v as u32, p))
        } else {
            None
        },
        None => None,
    }
}

fn read_str(b: &[u8], pos: usize) -> (r: Option<(String, usize)>)
    requires
        b@.len() <= PAGE_SIZE,
    ensures
        match r {
            Some((s, p)) => parse_str(b@, pos as int) == Some((s@, p as int)),
            None => parse_str(b@, pos as int) is None,
        },
{
    let (n, p) = match read_u64(b, pos) {
        Some(x) => x,
        None => return None,
    };
    if n > (b.len() - p) as u64 {
        return None;
    }
    let end: usize = p + n as usize;
    let mut bytes: Vec<u8> = Vec::new();
    let mut i: usize = p;
    while i < end
        invariant
            p <= i <= end <= b@.len(),
            bytes@ == b@.subrange(p as int, i as int),
        decreases end - i,
    {
        bytes.push(b[i]);
        assert(bytes@ =~= b@.subrange(p as int, i + 1));
        i += 1;
    }
    match string_from_utf8(bytes) {
        Some(s) => Some((s, end)),
        None => None,
    }
}

fn read_fields(b: &[u8], pos: usize, n: u64) -> (r: Option<(Vec<(String, String)>, usize)>)
    requires
        b@.len() <= PAGE_SIZE,
    ensures
        match r {
            Some((fs, p)) => parse_fields(b@, pos as int, n as nat) == Some(
                (fields_view(fs@), p as int),
            ),
            None => parse_fields(b@, pos as int, n as nat) is None,
        },
{
    let mut acc: Vec<(String, String)> = Vec::new();
    let mut cur: usize = pos;
    let mut i: u64 = 0;
    assert(fields_view(acc@) =~= Seq::empty());
    while i < n
        invariant
            i <= n,
            b@.len() <= PAGE_SIZE,
            parse_fields(b@, pos as int, i as nat) == Some((fields_view(acc@), cur as int)),
        decreases n - i,
    {
        let (k, p) = match read_str(b, cur) {
            Some(x) => x,
            None => {
                proof { lemma_parse_fields_stuck(b@, pos as int, i as nat, n as nat); }
                return None;
            },
        };
        let (v, q) = match read_str(b, p) {
            Some(x) => x,
            None => {
                proof { lemma_parse_fields_stuck(b@, pos as int, i as nat, n as nat); }
                return None;
            },
        };
        let ghost before = fields_view(acc@);
        acc.push((k, v));
        assert(fields_view(acc@) =~= before.push((k@, v@)));
        cur = q;
        i += 1;
    }
    Some((acc, cur))
}

proof fn lemma_parse_fields_stuck(b: Seq<u8>, pos: int, i: nat, n: nat)
    requires
        i < n,
        parse_fields(b, pos, i) matches Some((_, p)) && parse_field(b, p) is None,
    ensures
        parse_fields(b, pos, n) is None,
    decreases n - i,
{
    if i + 1 < n {
        lemma_parse_fields_stuck(b, pos, i, (n - 1) as nat);
    }
}

fn read_records(b: &[u8], pos: usize, n: u64) -> (r: Option<(Vec<Record>, usize)>)
    requires
        b@.len() <= PAGE_SIZE,
    ensures
        match r {
            Some((rs, p)) => parse_records(b@, pos as int, n as nat) == Some(
                (records_view(rs@), p as int),
            ),
            None => parse_records(b@, pos as int, n as nat) is None,
        },
{
    let mut acc: Vec<Record> = Vec::new();
    let mut cur: usize = pos;
    let mut i: u64 = 0;
    assert(records_view(acc@) =~= Seq::empty());
    while i < n
        invariant
            i <= n,
            b@.len() <= PAGE_SIZE,
            parse_records(b@, pos as int, i as nat) == Some((records_view(acc@), cur as int)),
        decreases n - i,
    {
        let rec = read_record(b, cur);
        match rec {
            Some((r, q)) => {
                let ghost before = records_view(acc@);
                let ghost rv = r@;
                acc.push(r);
                assert(records_view(acc@) =~= before.push(rv));
                cur = q;
            },
            None => {
                proof { lemma_parse_records_stuck(b@, pos as int, i as nat, n as nat); }
                return None;
            },
        }
        i += 1;
    }
    Some((acc, cur))
}

proof fn lemma_parse_records_stuck(b: Seq<u8>, pos: int, i: nat, n: nat)
    requires
        i < n,
        parse_records(b, pos, i) matches Some((_, p)) && parse_record(b, p) is None,
    ensures
        parse_records(b, pos, n) is None,
    decreases n - i,
{
    if i + 1 < n {
        lemma_parse_records_stuck(b, pos, i, (n - 1) as nat);
    }
}

fn read_record(b: &[u8], pos: usize) -> (r: Option<(Record, usize)>)
    requires
        b@.len() <= PAGE_SIZE,
    ensures
        match r {
            Some((rec, p)) => parse_record(b@, pos as int) == Some((rec@, p as int)),
            None => parse_record(b@, pos as int) is None,
        },
{
    let (id, p) = match read_u32(b, pos) {
        Some(x) => x,
        None => return None,
    };
    let (n, q) = match read_u64(b, p) {
        Some(x) => x,
        None => return None,
    };
    match read_fields(b, q, n) {
        Some((fields, e)) => Some((Record { id, fields }, e)),
        None => None,
    }
}

fn read_u32s(b: &[u8], pos: usize, n: u64) -> (r: Option<(Vec<u32>, usize)>)
    requires
        b@.len() <= PAGE_SIZE,
    ensures
        match r {
            Some((ks, p)) => parse_u32s(b@, pos as int, n as nat) == Some((ks@, p as int)),
            None => parse_u32s(b@, pos as int, n as nat) is None,
        },
{
    let mut acc: Vec<u32> = Vec::new();
    let mut cur: usize = pos;
    let mut i: u64 = 0;
    while i < n
        invariant
            i <= n,
            b@.len() <= PAGE_SIZE,
            parse_u32s(b@, pos as int, i as nat) == Some((acc@, cur as int)),
        decreases n - i,
    {
        match read_u32(b, cur) {
            Some((k, q)) => {
                acc.push(k);
                cur = q;
            },
            None => {
                proof { lemma_parse_u32s_stuck(b@, pos as int, i as nat, n as nat); }
                return None;
            },
        }
        i += 1;
    }
    Some((acc, cur))
}

proof fn lemma_parse_u32s_stuck(b: Seq<u8>, pos: int, i: nat, n: nat)
    requires
        i < n,
        parse_u32s(b, pos, i) matches Some((_, p)) && parse_u32(b, p) is None,
    ensures
        parse_u32s(b, pos, n) is None,
    decreases n - i,
{
    if i + 1 < n {
        lemma_parse_u32s_stuck(b, pos, i, (n - 1) as nat);
    }
}

fn read_u64s(b: &[u8], pos: usize, n: u64) -> (r: Option<(Vec<u64>, usize)>)
    requires
        b@.len() <= PAGE_SIZE,
    ensures
        match r {
            Some((vs, p)) => parse_u64s(b@, pos as int, n as nat) == Some((vs@, p as int)),
            None => parse_u64s(b@, pos as int, n as nat) is None,
        },
{
    let mut acc: Vec<u64> = Vec::new();
    let mut cur: usize = pos;
    let mut i: u64 = 0;
    while i < n
        invariant
            i <= n,
            b@.len() <= PAGE_SIZE,
            parse_u64s(b@, pos as int, i as nat) == Some((acc@, cur as int)),
        decreases n - i,
    {
        match read_u64(b, cur) {
            Some((v, q)) => {
                acc.push(v);
                cur = q;
            },
            None => {
                proof { lemma_parse_u64s_stuck(b@, pos as int, i as nat, n as nat); }
                return None;
            },
        }
        i += 1;
    }
    Some((acc, cur))
}

proof fn lemma_parse_u64s_stuck(b: Seq<u8>, pos: int, i: nat, n: nat)
    requires
        i < n,
        parse_u64s(b, pos, i) matches Some((_, p)) && parse_u64(b, p) is None,
    ensures
        parse_u64s(b, pos, n) is None,
    decreases n - i,
{
    if i + 1 < n {
        lemma_parse_u64s_stuck(b, pos, i, (n - 1) as nat);
    }
}

fn read_node_body(b: &[u8], pos: usize) -> (r: Option<(Vec<u32>, Vec<u64>)>)
    requires
        b@.len() <= PAGE_SIZE,
    ensures
        match r {
            Some((ks, vs)) => parse_node_body(b@, pos as int) == Some((ks@, vs@)),
            None => parse_node_body(b@, pos as int) is None,
        },
{
    let (nk, p) = match read_u64(b, pos) {
        Some(x) => x,
        None => return None,
    };
    let (keys, q) = match read_u32s(b, p, nk) {
        Some(x) => x,
        None => return None,
    };
    let (nv, r) = match read_u64(b, q) {
        Some(x) => x,
        None => return None,
    };
    match read_u64s(b, r, nv) {
        Some((vals, _)) => Some((keys, vals)),
        None => None,
    }
}

/// Decodes a slot image; fails with `CorruptPage` exactly when it does not
/// parse.
pub fn decode_page(b: &[u8]) -> (r: Result<PageData, Error>)
    ensures
        match r {
            Ok(p) => parse_page(b@) == Some(p@),
            Err(e) => parse_page(b@) is None && e == Error::CorruptPage,
        },
{
    if b.len() != PAGE_SIZE {
        return Err(Error::CorruptPage);
    }
    let (tag, p) = match read_u64(b, 0) {
        Some(x) => x,
        None => return Err(Error::CorruptPage),
    };
    if tag == TAG_RECORDS {
        let (n, q) = match read_u64(b, p) {
            Some(x) => x,
            None => return Err(Error::CorruptPage),
        };
        match read_records(b, q, n) {
            Some((records, _)) => Ok(PageData::Records(Page { records })),
            None => Err(Error::CorruptPage),
        }
    } else if tag == TAG_INTERNAL {
        match read_node_body(b, p) {
            Some((keys, children)) => Ok(
                PageData::Node(BPlusTreeNode::Internal(InternalNode { keys, children })),
            ),
            None => Err(Error::CorruptPage),
        }
    } else if tag == TAG_LEAF {
        match read_node_body(b, p) {
            Some((keys, values)) => Ok(PageData::Node(BPlusTreeNode::Leaf(LeafNode { keys, values }))),
            None => Err(Error::CorruptPage),
        }
    } else {
        Err(Error::CorruptPage)
    }
}

} // verus!
