//! The linear memory substrate.
//!
//! [`Memory`] is the contract every backing region obeys: a growable,
//! byte-addressable sequence of whole pages, read and written at byte
//! offsets. [`VecMemory`] is the in-process implementation; [`MemoryWindow`]
//! assigns a contiguous page range `[start_page, end_page)` of a region to
//! one structure and rejects any access that would cross that boundary, so
//! several independent structures can share one region without collision.

use vstd::prelude::*;

use crate::errors::MapError;

verus! {

/// Size in bytes of one page of the backing linear memory.
pub const PAGE_SIZE: u64 = 65536;

/// Hard cap on the page count of any region this library drives; it keeps
/// every byte offset comfortably inside `usize` on any supported target.
pub const MAX_REGION_PAGES: u64 = 32768;

/// `n` is exactly `p` pages of bytes.
pub open spec fn spans_pages(p: u64, n: int) -> bool {
    p as int * PAGE_SIZE as int == n
}

/// The smaller of two mathematical integers.
pub open spec fn min_int(a: int, b: int) -> int {
    if a <= b {
        a
    } else {
        b
    }
}

/// A growable, byte-addressable, page-granular memory region.
///
/// All failure outcomes are explicit: a read or write past the current size
/// reports an error and a failed write is never partially applied.
pub trait Memory: Sized {
    /// The bytes the region currently holds.
    spec fn contents(&self) -> Seq<u8>;

    /// Well-formedness of the region handle.
    spec fn inv(&self) -> bool;

    /// The region is always a whole, bounded number of pages.
    proof fn lemma_region_shape(&self)
        requires
            self.inv(),
        ensures
            exists|p: u64|
                p <= MAX_REGION_PAGES && #[trigger] spans_pages(p, self.contents().len() as int),
    ;

    /// Current size of the region in pages.
    fn size_pages(&self) -> (r: u64)
        requires
            self.inv(),
        ensures
            r as int * PAGE_SIZE as int == self.contents().len(),
    ;

    /// Copies `len` bytes starting at `offset` out of the region.
    ///
    /// Succeeds exactly when the whole range lies inside the current size.
    fn read(&self, offset: u64, len: u64) -> (r: Result<Vec<u8>, MapError>)
        requires
            self.inv(),
        ensures
            match r {
                Ok(bytes) => offset as int + len as int <= self.contents().len() && bytes@.len()
                    == len as int && (forall|j: int|
                    0 <= j < len as int ==> bytes@[j] == self.contents()[offset as int + j]),
                Err(e) => offset as int + len as int > self.contents().len() && (e
                    == MapError::OutOfBounds || e == MapError::WindowViolation),
            },
    ;

    /// Stores `bytes` into the region starting at `offset`.
    ///
    /// Succeeds exactly when the whole range lies inside the current size;
    /// on failure the region is unchanged.
    fn write(&mut self, offset: u64, bytes: &Vec<u8>) -> (r: Result<(), MapError>)
        requires
            old(self).inv(),
        ensures
            final(self).inv(),
            match r {
                Ok(u) => offset as int + bytes@.len() <= old(self).contents().len()
                    && final(self).contents().len() == old(self).contents().len()
                    && (forall|j: int|
                        0 <= j < bytes@.len()
                            ==> final(self).contents()[offset as int + j] == bytes@[j])
                    && (forall|j: int|
                        0 <= j < old(self).contents().len()
                            && !(offset as int <= j < offset as int + bytes@.len())
                            ==> final(self).contents()[j] == old(self).contents()[j]),
                Err(e) => offset as int + bytes@.len() > old(self).contents().len()
                    && final(self).contents() == old(self).contents()
                    && (e == MapError::OutOfBounds || e == MapError::WindowViolation),
            },
    ;

    /// Whether a request for `pages` further pages is within the region's
    /// hard ceiling, so that [`Memory::grow`] would succeed on it.
    spec fn can_grow(&self, pages: u64) -> bool;

    /// Extends the region by `pages` fresh zero pages, returning the
    /// previous size in pages; fails without effect when the region cannot
    /// be extended any further. Success is decided exactly by
    /// [`Memory::can_grow`].
    fn grow(&mut self, pages: u64) -> (r: Result<u64, MapError>)
        requires
            old(self).inv(),
        ensures
            final(self).inv(),
            r is Ok <==> old(self).can_grow(pages),
            match r {
                Ok(prev) => prev as int * PAGE_SIZE as int == old(self).contents().len()
                    && final(self).contents().len() == old(self).contents().len()
                        + pages as int * PAGE_SIZE as int
                    && (forall|j: int|
                        0 <= j < old(self).contents().len()
                            ==> final(self).contents()[j] == old(self).contents()[j])
                    && (forall|j: int|
                        old(self).contents().len() <= j < final(self).contents().len()
                            ==> final(self).contents()[j] == 0u8),
                Err(e) => e == MapError::GrowFailed
                    && final(self).contents() == old(self).contents(),
            },
    ;
}

/// An in-process linear memory backed by a byte vector, with an explicit
/// ceiling that models the host's hard limit on growth.
pub struct VecMemory {
    data: Vec<u8>,
    pages: u64,
    ceiling_pages: u64,
}

impl VecMemory {
    /// The hard ceiling, in pages, past which growth fails.
    pub closed spec fn spec_ceiling(&self) -> u64 {
        self.ceiling_pages
    }

    /// Growth succeeds exactly while the resulting page count stays under
    /// the ceiling.
    pub proof fn lemma_grow_ceiling(&self, pages: u64)
        requires
            self.inv(),
        ensures
            self.can_grow(pages) <==> pages as int + self.contents().len() as int / (
            PAGE_SIZE as int) <= self.spec_ceiling() as int,
    {
        lemma_exact_div(self.pages as int, PAGE_SIZE as int, self.data@.len() as int);
    }

    /// A fresh empty region that can grow up to `ceiling_pages` pages.
    pub fn new(ceiling_pages: u64) -> (r: VecMemory)
        requires
            ceiling_pages <= MAX_REGION_PAGES,
        ensures
            r.inv(),
            r.contents() == Seq::<u8>::empty(),
            r.spec_ceiling() == ceiling_pages,
            forall|p: u64| #[trigger] r.can_grow(p) <==> p <= ceiling_pages,
    {
        VecMemory { data: Vec::new(), pages: 0, ceiling_pages }
    }
}

/// An exact division: a region of `a` whole units of size `b` has `a` of
/// them.
pub proof fn lemma_exact_div(a: int, b: int, c: int)
    requires
        b > 0,
        a >= 0,
        a * b == c,
    ensures
        c / b == a,
{
    assert(c / b == a) by (nonlinear_arith)
        requires
            b > 0 && a >= 0 && a * b == c,
    ;
}

impl Memory for VecMemory {
    closed spec fn contents(&self) -> Seq<u8> {
        self.data@
    }

    closed spec fn can_grow(&self, pages: u64) -> bool {
        self.pages as int + pages as int <= self.ceiling_pages as int
    }

    closed spec fn inv(&self) -> bool {
        self.data@.len() == self.pages as int * PAGE_SIZE as int && self.pages
            <= self.ceiling_pages && self.ceiling_pages <= MAX_REGION_PAGES
    }

    proof fn lemma_region_shape(&self) {
        assert(self.pages <= MAX_REGION_PAGES && spans_pages(self.pages, self.contents().len() as int));
    }

    fn size_pages(&self) -> (r: u64) {
        self.pages
    }

    fn read(&self, offset: u64, len: u64) -> (r: Result<Vec<u8>, MapError>) {
        let size: u64 = self.pages * PAGE_SIZE;
        if len > size || offset > size - len {
            return Err(MapError::OutOfBounds);
        }
        let offu: usize = offset as usize;
        let lenu: usize = len as usize;
        let mut out: Vec<u8> = Vec::new();
        let mut i: usize = 0;
        while i < lenu
            invariant
                0 <= i <= lenu,
                offu + lenu <= self.data@.len(),
                offu + lenu <= 0x8000_0000,
                out@.len() == i,
                lenu == len as int,
                offu == offset as int,
                forall|j: int| 0 <= j < i ==> out@[j] == self.data@[offu + j],
            decreases lenu - i,
        {
            out.push(self.data[offu + i]);
            i = i + 1;
        }
        Ok(out)
    }

    fn write(&mut self, offset: u64, bytes: &Vec<u8>) -> (r: Result<(), MapError>) {
        let size: u64 = self.pages * PAGE_SIZE;
        let blen: usize = bytes.len();
        if blen as u64 > size || offset > size - blen as u64 {
            return Err(MapError::OutOfBounds);
        }
        let offu: usize = offset as usize;
        let mut i: usize = 0;
        while i < blen
            invariant
                0 <= i <= blen,
                offu + blen <= self.data@.len(),
                offu + blen <= 0x8000_0000,
                blen == bytes@.len(),
                offu == offset as int,
                self.pages == old(self).pages,
                self.ceiling_pages == old(self).ceiling_pages,
                self.data@.len() == old(self).data@.len(),
                old(self).inv(),
                forall|j: int| 0 <= j < i ==> self.data@[offu + j] == bytes@[j],
                forall|j: int|
                    0 <= j < old(self).data@.len() && !(offu <= j < offu + blen) ==> self.data@[j]
                        == old(self).data@[j],
            decreases blen - i,
        {
            self.data.set(offu + i, bytes[i]);
            i = i + 1;
        }
        Ok(())
    }

    fn grow(&mut self, pages: u64) -> (r: Result<u64, MapError>) {
        if pages > self.ceiling_pages - self.pages {
            return Err(MapError::GrowFailed);
        }
        let prev: u64 = self.pages;
        let added: usize = (pages * PAGE_SIZE) as usize;
        let mut i: usize = 0;
        while i < added
            invariant
                0 <= i <= added,
                added == pages as int * PAGE_SIZE as int,
                self.pages == old(self).pages,
                self.ceiling_pages == old(self).ceiling_pages,
                old(self).inv(),
                self.pages + pages <= self.ceiling_pages,
                self.data@.len() == old(self).data@.len() + i,
                forall|j: int|
                    0 <= j < old(self).data@.len() ==> self.data@[j] == old(self).data@[j],
                forall|j: int|
                    old(self).data@.len() <= j < self.data@.len() ==> self.data@[j] == 0u8,
            decreases added - i,
        {
            self.data.push(0u8);
            i = i + 1;
        }
        self.pages = self.pages + pages;
        Ok(prev)
    }
}

/// A contiguous page range `[start_page, end_page)` of a larger region,
/// privately assigned to one structure.
///
/// Every offset is translated by `start_page` pages before delegating to the
/// underlying region, and an access that would land at or beyond `end_page`
/// is rejected with [`MapError::WindowViolation`].
pub struct MemoryWindow<M: Memory> {
    inner: M,
    start_page: u64,
    end_page: u64,
}

impl<M: Memory> MemoryWindow<M> {
    /// First page of the underlying region this window may touch.
    pub closed spec fn spec_start_page(&self) -> u64 {
        self.start_page
    }

    /// First page of the underlying region past the window.
    pub closed spec fn spec_end_page(&self) -> u64 {
        self.end_page
    }

    /// A request that would take the window past its assigned page range
    /// is refused, whatever the underlying region would allow.
    pub proof fn lemma_grow_capped(&self, pages: u64)
        requires
            self.inv(),
            pages as int > self.spec_end_page() as int - self.spec_start_page() as int
                - self.contents().len() as int / (PAGE_SIZE as int),
        ensures
            !self.can_grow(pages),
    {
        self.inner.lemma_region_shape();
        let p = choose|p: u64|
            p <= MAX_REGION_PAGES && spans_pages(p, self.inner.contents().len() as int);
        lemma_exact_div(p as int, PAGE_SIZE as int, self.inner.contents().len() as int);
        let capped = min_int(p as int, self.end_page as int);
        let cur = if capped <= self.start_page as int {
            0int
        } else {
            capped - self.start_page as int
        };
        assert(cur * PAGE_SIZE as int == self.contents().len() as int);
        lemma_exact_div(cur, PAGE_SIZE as int, self.contents().len() as int);
    }

    /// Assigns the page range `[start_page, end_page)` of `inner` to the new
    /// window.
    pub fn new(inner: M, start_page: u64, end_page: u64) -> (r: MemoryWindow<M>)
        requires
            inner.inv(),
            start_page <= end_page,
            end_page <= MAX_REGION_PAGES,
        ensures
            r.inv(),
            r.spec_start_page() == start_page,
            r.spec_end_page() == end_page,
            r.contents() == window_view(inner.contents(), start_page, end_page),
    {
        MemoryWindow { inner, start_page, end_page }
    }
}

/// The bytes of `base` that a window over pages `[start_page, end_page)`
/// exposes: the part of the range that the base region currently covers.
pub open spec fn window_view(base: Seq<u8>, start_page: u64, end_page: u64) -> Seq<u8> {
    let lo = start_page as int * PAGE_SIZE as int;
    let hi = min_int(base.len() as int, end_page as int * PAGE_SIZE as int);
    if lo <= hi {
        base.subrange(lo, hi)
    } else {
        Seq::empty()
    }
}

impl<M: Memory> Memory for MemoryWindow<M> {
    closed spec fn contents(&self) -> Seq<u8> {
        window_view(self.inner.contents(), self.start_page, self.end_page)
    }

    closed spec fn can_grow(&self, pages: u64) -> bool {
        let ip = self.inner.contents().len() as int / (PAGE_SIZE as int);
        let capped = min_int(ip, self.end_page as int);
        let cur = if capped <= self.start_page as int {
            0int
        } else {
            capped - self.start_page as int
        };
        &&& pages as int + cur <= self.end_page as int - self.start_page as int
        &&& (pages == 0 || self.inner.can_grow(
            ((self.start_page as int + cur + pages as int) - ip) as u64,
        ))
    }

    closed spec fn inv(&self) -> bool {
        self.inner.inv() && self.start_page <= self.end_page && self.end_page <= MAX_REGION_PAGES
    }

    proof fn lemma_region_shape(&self) {
        self.inner.lemma_region_shape();
        let ip = choose|p: u64|
            p <= MAX_REGION_PAGES && #[trigger] spans_pages(p, self.inner.contents().len() as int);
        let capped: u64 = if ip < self.end_page {
            ip
        } else {
            self.end_page
        };
        let wp: u64 = if capped <= self.start_page {
            0
        } else {
            (capped - self.start_page) as u64
        };
        assert(wp <= MAX_REGION_PAGES && spans_pages(wp, self.contents().len() as int));
    }

    fn size_pages(&self) -> (r: u64) {
        let ip: u64 = self.inner.size_pages();
        proof {
            self.inner.lemma_region_shape();
        }
        let capped: u64 = if ip < self.end_page {
            ip
        } else {
            self.end_page
        };
        if capped <= self.start_page {
            0
        } else {
            capped - self.start_page
        }
    }

    fn read(&self, offset: u64, len: u64) -> (r: Result<Vec<u8>, MapError>) {
        let cap_bytes: u64 = (self.end_page - self.start_page) * PAGE_SIZE;
        if len > cap_bytes || offset > cap_bytes - len {
            return Err(MapError::WindowViolation);
        }
        let size: u64 = self.size_pages() * PAGE_SIZE;
        if len > size || offset > size - len {
            return Err(MapError::OutOfBounds);
        }
        if len == 0 {
            return Ok(Vec::new());
        }
        let abs: u64 = self.start_page * PAGE_SIZE + offset;
        match self.inner.read(abs, len) {
            Ok(v) => Ok(v),
            Err(_) => {
                proof {
                    assert(false);
                }
                Err(MapError::OutOfBounds)
            },
        }
    }

    fn write(&mut self, offset: u64, bytes: &Vec<u8>) -> (r: Result<(), MapError>) {
        let cap_bytes: u64 = (self.end_page - self.start_page) * PAGE_SIZE;
        let blen: usize = bytes.len();
        if blen as u64 > cap_bytes || offset > cap_bytes - blen as u64 {
            return Err(MapError::WindowViolation);
        }
        let size: u64 = self.size_pages() * PAGE_SIZE;
        if blen as u64 > size || offset > size - blen as u64 {
            return Err(MapError::OutOfBounds);
        }
        if blen == 0 {
            return Ok(());
        }
        let abs: u64 = self.start_page * PAGE_SIZE + offset;
        match self.inner.write(abs, bytes) {
            Ok(u) => {
                proof {
                    assert forall|j: int|
                        0 <= j < old(self).contents().len() && !(offset as int <= j < offset as int
                            + bytes@.len()) implies self.contents()[j]
                        == old(self).contents()[j] by {
                        assert(self.contents()[j] == self.inner.contents()[self.start_page as int
                            * PAGE_SIZE as int + j]);
                    }
                }
                Ok(())
            },
            Err(_) => {
                proof {
                    assert(false);
                }
                Err(MapError::OutOfBounds)
            },
        }
    }

    fn grow(&mut self, pages: u64) -> (r: Result<u64, MapError>) {
        proof {
            self.inner.lemma_region_shape();
        }
        let ip: u64 = self.inner.size_pages();
        proof {
            lemma_exact_div(
                ip as int,
                PAGE_SIZE as int,
                self.inner.contents().len() as int,
            );
        }
        let capped: u64 = if ip < self.end_page {
            ip
        } else {
            self.end_page
        };
        let cur: u64 = if capped <= self.start_page {
            0
        } else {
            capped - self.start_page
        };
        let cap: u64 = self.end_page - self.start_page;
        if pages > cap - cur {
            return Err(MapError::GrowFailed);
        }
        if pages == 0 {
            return Ok(cur);
        }
        let target_abs: u64 = self.start_page + cur + pages;
        let added: u64 = target_abs - ip;
        match self.inner.grow(added) {
            Ok(_prev) => {
                proof {
                    assert forall|j: int|
                        0 <= j < old(self).contents().len() implies self.contents()[j]
                        == old(self).contents()[j] by {
                        assert(self.contents()[j] == self.inner.contents()[self.start_page as int
                            * PAGE_SIZE as int + j]);
                    }
                }
                Ok(cur)
            },
            Err(_) => Err(MapError::GrowFailed),
        }
    }
}

} // verus!
