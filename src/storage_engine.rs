//! Fixed-offset page storage over the image of the backing file: slot `n`
//! holds bytes `[n * PAGE_SIZE, (n + 1) * PAGE_SIZE)`.
use vstd::prelude::*;

use crate::codec::{decode_page, encode_page, fits, lemma_decode_encode, page_bytes, page_image, parse_page};
use crate::error::Error;
use crate::page::{PageData, PageView, PAGE_SIZE};

verus! {

/// The file image and the next page identifier to hand out.
pub struct StorageEngine {
    data: Vec<u8>,
    next_page_id: u64,
}

/// The file after writing `d` at byte `off`: it grows with zeros up to the
/// end of the written region when it is shorter, and is otherwise unchanged.
pub open spec fn write_region(file: Seq<u8>, off: int, d: Seq<u8>) -> Seq<u8> {
    let len = if file.len() < off + d.len() {
        off + d.len()
    } else {
        file.len() as int
    };
    Seq::new(
        len as nat,
        |i: int|
            if off <= i < off + d.len() {
                d[i - off]
            } else if i < file.len() {
                file[i]
            } else {
                0u8
            },
    )
}

/// The byte offset of a page slot.
pub open spec fn slot_start(page_id: u64) -> int {
    page_id * PAGE_SIZE
}

/// The slot of a page can be addressed in memory.
pub open spec fn addressable(page_id: u64) -> bool {
    slot_start(page_id) + PAGE_SIZE <= usize::MAX
}

/// The file holds the whole slot of a page.
pub open spec fn in_file(file: Seq<u8>, page_id: u64) -> bool {
    slot_start(page_id) + PAGE_SIZE <= file.len()
}

/// The bytes of a page slot.
pub open spec fn slot(file: Seq<u8>, page_id: u64) -> Seq<u8> {
    file.subrange(slot_start(page_id), slot_start(page_id) + PAGE_SIZE)
}

/// What reading a page from a file gives.
pub open spec fn read_page_spec(file: Seq<u8>, page_id: u64) -> Result<PageView, Error> {
    if !in_file(file, page_id) {
        Err(Error::IO)
    } else {
        match parse_page(slot(file, page_id)) {
            Some(p) => Ok(p),
            None => Err(Error::CorruptPage),
        }
    }
}

/// What writing a page does to a file, or the error it fails with.
pub open spec fn write_page_spec(file: Seq<u8>, page_id: u64, p: PageView) -> Result<Seq<u8>, Error> {
    if !fits(p) {
        Err(Error::PageSizeExceeded(page_bytes(p).len() as usize))
    } else if !addressable(page_id) {
        Err(Error::IO)
    } else {
        Ok(write_region(file, slot_start(page_id), page_image(p)))
    }
}

/// A page written at its slot reads back as the same page.
pub proof fn lemma_read_after_write(file: Seq<u8>, page_id: u64, p: PageView)
    requires
        write_page_spec(file, page_id, p) is Ok,
    ensures
        read_page_spec(write_page_spec(file, page_id, p)->Ok_0, page_id) == Ok::<PageView, Error>(p),
{
    let f = write_page_spec(file, page_id, p)->Ok_0;
    assert(slot(f, page_id) =~= page_image(p));
    lemma_decode_encode(p);
}

/// Writing one page leaves the slot of every other page as it was.
pub proof fn lemma_write_keeps_other_slots(file: Seq<u8>, page_id: u64, other: u64, p: PageView)
    requires
        write_page_spec(file, page_id, p) is Ok,
        other != page_id,
        in_file(file, other),
    ensures
        in_file(write_page_spec(file, page_id, p)->Ok_0, other),
        slot(write_page_spec(file, page_id, p)->Ok_0, other) == slot(file, other),
        read_page_spec(write_page_spec(file, page_id, p)->Ok_0, other) == read_page_spec(file, other),
{
    let f = write_page_spec(file, page_id, p)->Ok_0;
    if other < page_id {
        assert(slot_start(other) + PAGE_SIZE <= slot_start(page_id)) by (nonlinear_arith)
            requires other < page_id;
    } else {
        assert(slot_start(page_id) + PAGE_SIZE <= slot_start(other)) by (nonlinear_arith)
            requires other > page_id;
    }
    assert(slot(f, other) =~= slot(file, other));
}

/// A raw write whose region lies outside the slot of a page leaves that slot,
/// and so what the page reads as, unchanged.
pub proof fn lemma_write_at_keeps_slot(file: Seq<u8>, off: int, d: Seq<u8>, page_id: u64)
    requires
        0 <= off,
        in_file(file, page_id),
        off + d.len() <= slot_start(page_id) || slot_start(page_id) + PAGE_SIZE <= off,
    ensures
        in_file(write_region(file, off, d), page_id),
        slot(write_region(file, off, d), page_id) == slot(file, page_id),
        read_page_spec(write_region(file, off, d), page_id) == read_page_spec(file, page_id),
{
    assert(slot(write_region(file, off, d), page_id) =~= slot(file, page_id));
}

/// A written page occupies exactly its slot: the slot holds the page's
/// encoding followed by zeros, and every byte outside the slot is kept (or is
/// a zero where the file had to grow).
pub proof fn lemma_write_region(file: Seq<u8>, page_id: u64, p: PageView)
    requires
        write_page_spec(file, page_id, p) is Ok,
    ensures
        ({
            let f = write_page_spec(file, page_id, p)->Ok_0;
            let s = slot_start(page_id);
            let e = page_bytes(p);
            &&& f.len() >= s + PAGE_SIZE
            &&& forall|i: int| 0 <= i < e.len() ==> #[trigger] f[s + i] == e[i]
            &&& forall|i: int| e.len() <= i < PAGE_SIZE ==> #[trigger] f[s + i] == 0u8
            &&& forall|i: int|
                0 <= i < f.len() && !(s <= i < s + PAGE_SIZE) ==> #[trigger] f[i] == (if i
                    < file.len() {
                    file[i]
                } else {
                    0u8
                })
        }),
{
}

impl StorageEngine {
    /// An engine over an existing file image (empty for a new file); page
    /// identifiers continue after the last whole slot.
    pub fn new(contents: Vec<u8>) -> (r: StorageEngine)
        ensures
            r.file() == contents@,
            r.next_page_id() == contents@.len() as int / PAGE_SIZE as int,
    {
        let next_page_id = (contents.len() / PAGE_SIZE) as u64;
        StorageEngine { data: contents, next_page_id }
    }

    pub closed spec fn file(&self) -> Seq<u8> {
        self.data@
    }

    pub closed spec fn next_page_id(&self) -> u64 {
        self.next_page_id
    }

    /// The next page identifier that `allocate_page` hands out.
    pub fn next_id(&self) -> (r: u64)
        ensures
            r == self.next_page_id(),
    {
        self.next_page_id
    }

    /// The file image, for persisting it.
    pub fn contents(&self) -> (r: &Vec<u8>)
        ensures
            r@ == self.file(),
    {
        &self.data
    }

    /// Hands out the next page identifier.
    pub fn allocate_page(&mut self) -> (r: u64)
        requires
            old(self).next_page_id() < u64::MAX,
        ensures
            r == old(self).next_page_id(),
            final(self).next_page_id() == old(self).next_page_id() + 1,
            final(self).file() == old(self).file(),
    {
        let page_id = self.next_page_id;
        self.next_page_id = self.next_page_id + 1;
        page_id
    }

    /// Writes `data` at byte `offset`; fails with `IO` when the region's end
    /// cannot be addressed.
    pub fn write_at(&mut self, offset: u64, data: &[u8]) -> (r: Result<(), Error>)
        ensures
            final(self).next_page_id() == old(self).next_page_id(),
            match r {
                Ok(()) => offset + data@.len() <= usize::MAX && final(self).file() == write_region(
                    old(self).file(),
                    offset as int,
                    data@,
                ),
                Err(e) => offset + data@.len() > usize::MAX && e == Error::IO && final(self).file()
                    == old(self).file(),
            },
    {
        if offset as u128 + data.len() as u128 > usize::MAX as u128 {
            return Err(Error::IO);
        }
        let off = offset as usize;
        let end: usize = off + data.len();
        let ghost file = self.data@;
        while self.data.len() < end
            invariant
                file.len() <= self.data@.len(),
                self.data@.len() <= end || self.data@.len() == file.len(),
                self.next_page_id == old(self).next_page_id,
                forall|i: int| 0 <= i < self.data@.len() ==> #[trigger] self.data@[i] == (if i
                    < file.len() {
                    file[i]
                } else {
                    0u8
                }),
            decreases end - self.data.len(),
        {
            self.data.push(0u8);
        }
        let ghost grown = self.data@;
        let mut i: usize = 0;
        while i < data.len()
            invariant
                off + data@.len() == end <= self.data@.len() == grown.len(),
                self.next_page_id == old(self).next_page_id,
                i <= data@.len(),
                forall|j: int|
                    0 <= j < grown.len() ==> #[trigger] self.data@[j] == (if off <= j < off + i {
                        data@[j - off]
                    } else {
                        grown[j]
                    }),
            decreases data.len() - i,
        {
            self.data.set(off + i, data[i]);
            i += 1;
        }
        assert(self.data@ =~= write_region(file, off as int, data@));
        Ok(())
    }

    /// The `size` bytes at `offset`; fails with `IO` when the file ends
    /// before them.
    pub fn read_at(&self, offset: u64, size: usize) -> (r: Result<Vec<u8>, Error>)
        ensures
            match r {
                Ok(v) => offset + size <= self.file().len() && v@ == self.file().subrange(
                    offset as int,
                    offset + size,
                ),
                Err(e) => offset + size > self.file().len() && e == Error::IO,
            },
    {
        if offset as u128 + size as u128 > self.data.len() as u128 {
            return Err(Error::IO);
        }
        let off = offset as usize;
        assert(self.data@.len() <= usize::MAX);
        let mut out: Vec<u8> = Vec::new();
        let mut i: usize = 0;
        while i < size
            invariant
                off + size <= self.data@.len() <= usize::MAX,
                i <= size,
                out@ == self.data@.subrange(off as int, off + i),
            decreases size - i,
        {
            out.push(self.data[off + i]);
            assert(out@ =~= self.data@.subrange(off as int, off + i + 1));
            i += 1;
        }
        Ok(out)
    }

    /// Encodes a page and writes it, zero-padded, over its whole slot.
    pub fn write_page(&mut self, page_id: u64, page: &PageData) -> (r: Result<(), Error>)
        ensures
            final(self).next_page_id() == old(self).next_page_id(),
            match write_page_spec(old(self).file(), page_id, page@) {
                Ok(f) => r is Ok && final(self).file() == f,
                Err(e) => r == Err::<(), Error>(e) && final(self).file() == old(self).file(),
            },
    {
        let image = match encode_page(page) {
            Ok(b) => b,
            Err(e) => return Err(e),
        };
        if page_id as u128 * PAGE_SIZE as u128 + PAGE_SIZE as u128 > usize::MAX as u128 {
            return Err(Error::IO);
        }
        assert(page_id * PAGE_SIZE <= usize::MAX);
        let offset = page_id * PAGE_SIZE as u64;
        let r = self.write_at(offset, image.as_slice());
        assert(r is Ok);
        r
    }

    /// Reads and decodes the slot of a page.
    pub fn read_page(&self, page_id: u64) -> (r: Result<PageData, Error>)
        ensures
            match read_page_spec(self.file(), page_id) {
                Ok(p) => r matches Ok(q) && q@ == p,
                Err(e) => r matches Err(x) && x == e,
            },
    {
        if page_id as u128 * PAGE_SIZE as u128 + PAGE_SIZE as u128 > self.data.len() as u128 {
            return Err(Error::IO);
        }
        assert(page_id * PAGE_SIZE <= usize::MAX);
        let offset = page_id * PAGE_SIZE as u64;
        let bytes = match self.read_at(offset, PAGE_SIZE) {
            Ok(b) => b,
            Err(e) => return Err(e),
        };
        decode_page(bytes.as_slice())
    }
}

} // verus!
