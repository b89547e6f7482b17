use vstd::prelude::*;

use crate::error::Error;
use crate::mem::{region_len, region_read, region_write, region_of};

verus! {

/// Bytes reserved at the front of the region for the two superblock slots.
pub const HEADER_BYTES: usize = 128;

/// The smallest and largest accepted page sizes. A page must hold the
/// header region (the header occupies the front of page number zero), and
/// the cap keeps every per-page count inside 32 bits.
pub const MIN_PAGE_SIZE: usize = 128;

pub const MAX_PAGE_SIZE: usize = 0x4000_0000;

/// A region cannot be mounted at this page size and watermark: it lacks
/// room for the header page plus one data page, or the watermark is out
/// of range.
pub open spec fn mount_rejected(len: int, page_size: int, next_page: int) -> bool {
    ||| len / page_size < 2
    ||| next_page < 1
    ||| next_page > len / page_size
}

/// Owns the mapped region and carves it into fixed-size pages.
///
/// Page number zero holds the header; data pages are numbered `1` up to
/// `num_pages`. Allocation is a bump watermark, `next_page`: pages below it
/// were handed out to some committed or in-flight tree and are never
/// rewritten; pages at or above it are free. Superseded pages are not
/// reclaimed.
pub struct PageStore {
    mem: memmap2::MmapMut,
    mem_len: usize,
    page_size: usize,
    num_pages: u64,
    next_page: u64,
}

impl PageStore {
    /// The whole mapped byte region.
    pub closed spec fn region(self) -> Seq<u8> {
        region_of(self.mem)
    }

    pub closed spec fn page_size(self) -> usize {
        self.page_size
    }

    pub closed spec fn num_pages(self) -> u64 {
        self.num_pages
    }

    pub closed spec fn next_page(self) -> u64 {
        self.next_page
    }

    /// The header region: the first bytes of page zero.
    pub open spec fn header(self) -> Seq<u8> {
        self.region().subrange(0, HEADER_BYTES as int)
    }

    /// The page array: index `p` is the image of page number `p`.
    pub open spec fn pages(self) -> Seq<Seq<u8>> {
        Seq::new(
            (self.num_pages() + 1) as nat,
            |p: int|
                self.region().subrange(
                    p * self.page_size() as int,
                    (p + 1) * self.page_size() as int,
                ),
        )
    }

    pub closed spec fn wf(self) -> bool {
        &&& self.mem_len == region_of(self.mem).len()
        &&& MIN_PAGE_SIZE <= self.page_size <= MAX_PAGE_SIZE
        &&& (self.num_pages + 1) * (self.page_size as int) <= self.mem_len
        &&& 1 <= self.num_pages < u64::MAX
        &&& 1 <= self.next_page <= self.num_pages + 1
    }

    /// Mounts a region as a page store. Fails when the region cannot hold
    /// the header page plus at least one data page, or when the recorded
    /// watermark does not fit the region.
    pub fn new(mem: memmap2::MmapMut, page_size: usize, next_page: u64) -> (r: Result<
        PageStore,
        Error,
    >)
        requires
            MIN_PAGE_SIZE <= page_size <= MAX_PAGE_SIZE,
        ensures
            match r {
                Ok(ps) => {
                    &&& ps.wf()
                    &&& ps.page_size() == page_size
                    &&& ps.next_page() == next_page
                    &&& ps.region() == region_of(mem)
                    &&& ps.num_pages() as int == region_of(mem).len() as int / page_size as int - 1
                    &&& 1 <= next_page <= ps.num_pages() + 1
                },
                Err(e) => e == Error::CorruptDatabase && mount_rejected(
                    region_of(mem).len() as int,
                    page_size as int,
                    next_page as int,
                ),
            },
    {
        let mem_len = region_len(&mem);
        let total = mem_len / page_size;
        if total < 2 {
            return Err(Error::CorruptDatabase);
        }
        let num_pages = (total - 1) as u64;
        if next_page < 1 || next_page > num_pages + 1 {
            return Err(Error::CorruptDatabase);
        }
        proof {
            assert(total * page_size <= mem_len) by (nonlinear_arith)
                requires
                    total == mem_len as int / page_size as int,
                    page_size > 0,
            ;
            assert(total as int == num_pages + 1);
            assert(total < u64::MAX) by (nonlinear_arith)
                requires
                    total == mem_len as int / page_size as int,
                    page_size >= 128,
                    mem_len <= usize::MAX,
            ;
        }
        Ok(PageStore { mem, mem_len, page_size, num_pages, next_page })
    }

    /// The byte offset where page `p` starts; in bounds together with the
    /// page that follows it.
    fn page_offset(&self, p: u64) -> (off: usize)
        requires
            self.wf(),
            p <= self.num_pages(),
        ensures
            off == p * self.page_size(),
            off + self.page_size() <= self.region().len(),
    {
        proof {
            assert((p + 1) * (self.page_size as int) <= (self.num_pages + 1) * (
            self.page_size as int) && p * (self.page_size as int) + self.page_size == (p + 1) * (
            self.page_size as int) && 0 <= p && p <= p * (self.page_size as int))
                by (nonlinear_arith)
                requires
                    0 <= p <= self.num_pages,
                    self.page_size >= 1,
            ;
        }
        (p as usize) * self.page_size
    }

    /// Copies one page out of the region.
    pub fn read_page(&self, p: u64) -> (r: Vec<u8>)
        requires
            self.wf(),
            1 <= p <= self.num_pages(),
        ensures
            r@ == self.pages()[p as int],
            r@.len() == self.page_size(),
    {
        let off = self.page_offset(p);
        let mut out: Vec<u8> = Vec::new();
        let mut j: usize = 0;
        while j < self.page_size
            invariant
                self.wf(),
                off == p * self.page_size(),
                off + self.page_size() <= self.region().len(),
                j <= self.page_size(),
                out@ == self.region().subrange(off as int, off + j),
            decreases self.page_size() - j,
        {
            let b = region_read(&self.mem, off + j);
            out.push(b);
            proof {
                assert(out@ =~= self.region().subrange(off as int, off + j + 1));
            }
            j = j + 1;
        }
        proof {
            assert(self.pages()[p as int] == self.region().subrange(
                p * self.page_size() as int,
                (p + 1) * self.page_size() as int,
            ));
            assert(p * self.page_size() as int + self.page_size() == (p + 1)
                * self.page_size() as int) by (nonlinear_arith);
            assert(out@ =~= self.pages()[p as int]);
        }
        out
    }

    /// Writes one whole page image. Only pages never published to a
    /// committed tree are written: the engine calls this solely on pages at
    /// or above the watermark it started the current transaction with.
    pub fn write_page(&mut self, p: u64, data: &Vec<u8>)
        requires
            old(self).wf(),
            1 <= p <= old(self).num_pages(),
            data@.len() == old(self).page_size(),
        ensures
            final(self).wf(),
            final(self).page_size() == old(self).page_size(),
            final(self).num_pages() == old(self).num_pages(),
            final(self).next_page() == old(self).next_page(),
            final(self).region().len() == old(self).region().len(),
            final(self).pages() == old(self).pages().update(p as int, data@),
            final(self).header() == old(self).header(),
    {
        let off = self.page_offset(p);
        let ghost r0 = self.region();
        let mut j: usize = 0;
        while j < self.page_size
            invariant
                self.wf(),
                self.page_size == old(self).page_size,
                self.num_pages == old(self).num_pages,
                self.next_page == old(self).next_page,
                self.mem_len == old(self).mem_len,
                data@.len() == self.page_size(),
                off == p * self.page_size(),
                off + self.page_size() <= self.region().len(),
                j <= self.page_size(),
                self.region().len() == r0.len(),
                forall|i: int| 0 <= i < r0.len() && !(off <= i < off + j) ==> self.region()[i] == r0[i],
                forall|i: int| 0 <= i < j ==> self.region()[off + i] == data@[i],
            decreases self.page_size() - j,
        {
            region_write(&mut self.mem, off + j, data[j]);
            j = j + 1;
        }
        proof {
            let ps = self.page_size() as int;
            let np = self.num_pages() as int;
            assert forall|q: int| 0 <= q <= np && q != p implies self.pages()[q] == old(
                self,
            ).pages()[q] by {
                assert((q + 1) * ps <= p * ps || (p + 1) * ps <= q * ps) by (nonlinear_arith)
                    requires
                        0 <= q <= np,
                        0 <= p <= np,
                        q != p,
                        ps >= 1,
                ;
                assert(0 <= q * ps && (q + 1) * ps <= (np + 1) * ps) by (nonlinear_arith)
                    requires
                        0 <= q <= np,
                        ps >= 1,
                ;
                assert(q * ps + ps == (q + 1) * ps) by (nonlinear_arith);
                assert(p * ps + ps == (p + 1) * ps) by (nonlinear_arith);
                assert forall|k: int| 0 <= k < ps implies self.pages()[q][k] == old(
                    self,
                ).pages()[q][k] by {
                    assert(self.pages()[q][k] == self.region()[q * ps + k]);
                    assert(old(self).pages()[q][k] == r0[q * ps + k]);
                    assert(!(off <= q * ps + k < off + self.page_size()));
                }
                assert(self.pages()[q] =~= old(self).pages()[q]);
            }
            assert(self.pages()[p as int] =~= data@) by {
                assert(p * ps + ps == (p + 1) * ps) by (nonlinear_arith);
            }
            assert(self.pages() =~= old(self).pages().update(p as int, data@));
            assert(self.header() =~= old(self).header()) by {
                assert(off >= HEADER_BYTES) by (nonlinear_arith)
                    requires
                        off == p * ps,
                        p >= 1,
                        ps >= HEADER_BYTES,
                ;
            }
        }
    }

    /// Reads the header region.
    pub fn read_header(&self) -> (r: Vec<u8>)
        requires
            self.wf(),
        ensures
            r@ == self.header(),
    {
        proof {
            assert(HEADER_BYTES <= (self.num_pages() + 1) * self.page_size() as int)
                by (nonlinear_arith)
                requires
                    self.num_pages() >= 1,
                    self.page_size() >= HEADER_BYTES,
            ;
        }
        let mut out: Vec<u8> = Vec::new();
        let mut j: usize = 0;
        while j < HEADER_BYTES
            invariant
                self.wf(),
                j <= HEADER_BYTES,
                HEADER_BYTES <= self.region().len(),
                out@ == self.region().subrange(0, j as int),
            decreases HEADER_BYTES - j,
        {
            let b = region_read(&self.mem, j);
            out.push(b);
            proof {
                assert(out@ =~= self.region().subrange(0, j + 1));
            }
            j = j + 1;
        }
        out
    }

    /// Writes one header byte: the commit protocol's unit of publication.
    pub fn write_header_byte(&mut self, i: usize, b: u8)
        requires
            old(self).wf(),
            i < HEADER_BYTES,
        ensures
            final(self).wf(),
            final(self).page_size() == old(self).page_size(),
            final(self).num_pages() == old(self).num_pages(),
            final(self).next_page() == old(self).next_page(),
            final(self).region().len() == old(self).region().len(),
            final(self).header() == old(self).header().update(i as int, b),
            forall|q: int|
                1 <= q <= final(self).num_pages() ==> final(self).pages()[q] == old(
                    self,
                ).pages()[q],
    {
        proof {
            assert(HEADER_BYTES <= (self.num_pages() + 1) * self.page_size() as int)
                by (nonlinear_arith)
                requires
                    self.num_pages() >= 1,
                    self.page_size() >= HEADER_BYTES,
            ;
        }
        region_write(&mut self.mem, i, b);
        proof {
            let ps = self.page_size() as int;
            let np = self.num_pages() as int;
            assert(final(self).header() =~= old(self).header().update(i as int, b));
            assert forall|q: int| 1 <= q <= np implies self.pages()[q] == old(self).pages()[q] by {
                assert(ps <= q * ps && (q + 1) * ps <= (np + 1) * ps) by (nonlinear_arith)
                    requires
                        1 <= q <= np,
                        ps >= 1,
                ;
                assert(q * ps + ps == (q + 1) * ps) by (nonlinear_arith);
                assert(self.pages()[q] =~= old(self).pages()[q]);
            }
        }
    }

    /// Hands out the next free page number, or `OutOfSpace` when the fixed
    /// region is exhausted. The store itself is unchanged either way; the
    /// caller owns the returned page until it commits or rewinds.
    pub fn allocate(&mut self) -> (r: Result<u64, Error>)
        requires
            old(self).wf(),
        ensures
            final(self).wf(),
            final(self).page_size() == old(self).page_size(),
            final(self).num_pages() == old(self).num_pages(),
            final(self).region() == old(self).region(),
            match r {
                Ok(p) => p == old(self).next_page() && final(self).next_page() == p + 1 && 1 <= p
                    <= final(self).num_pages(),
                Err(e) => e == Error::OutOfSpace && old(self).next_page() == old(self).num_pages()
                    + 1 && *final(self) == *old(self),
            },
    {
        if self.next_page > self.num_pages {
            return Err(Error::OutOfSpace);
        }
        let p = self.next_page;
        self.next_page = p + 1;
        Ok(p)
    }

    /// Moves the watermark back to `w`, abandoning every page allocated
    /// since the caller recorded it: the rollback of an aborted or failed
    /// transaction.
    pub fn rewind(&mut self, w: u64)
        requires
            old(self).wf(),
            1 <= w <= old(self).next_page(),
        ensures
            final(self).wf(),
            final(self).page_size() == old(self).page_size(),
            final(self).num_pages() == old(self).num_pages(),
            final(self).region() == old(self).region(),
            final(self).next_page() == w,
    {
        self.next_page = w;
    }

    /// The bounds a well-formed store guarantees, for callers that cannot
    /// see the private fields.
    pub proof fn lemma_wf_bounds(&self)
        requires
            self.wf(),
        ensures
            MIN_PAGE_SIZE <= self.page_size() <= MAX_PAGE_SIZE,
            1 <= self.num_pages(),
            self.num_pages() < u64::MAX,
            self.pages().len() == self.num_pages() + 1,
            1 <= self.next_page() <= self.num_pages() + 1,
            HEADER_BYTES <= self.region().len(),
            self.header().len() == HEADER_BYTES,
    {
        assert(HEADER_BYTES <= (self.num_pages() + 1) * self.page_size() as int)
            by (nonlinear_arith)
            requires
                self.num_pages() >= 1,
                self.page_size() >= HEADER_BYTES,
        ;
    }

    /// Rebuilds the store over the same region with another page size and
    /// watermark, as recorded by an existing file's header.
    pub fn remount(self, page_size: usize, next_page: u64) -> (r: Result<PageStore, Error>)
        requires
            MIN_PAGE_SIZE <= page_size <= MAX_PAGE_SIZE,
        ensures
            match r {
                Ok(ps) => {
                    &&& ps.wf()
                    &&& ps.page_size() == page_size
                    &&& ps.next_page() == next_page
                    &&& ps.region() == self.region()
                    &&& ps.num_pages() as int == self.region().len() as int / page_size as int - 1
                    &&& 1 <= next_page <= ps.num_pages() + 1
                },
                Err(e) => e == Error::CorruptDatabase && mount_rejected(
                    self.region().len() as int,
                    page_size as int,
                    next_page as int,
                ),
            },
    {
        PageStore::new(self.mem, page_size, next_page)
    }

    /// Gives the mapped region back, ending this store's ownership.
    pub fn into_mem(self) -> (r: memmap2::MmapMut)
        ensures
            region_of(r) == self.region(),
    {
        self.mem
    }

    /// The number of data pages the region holds.
    pub fn capacity(&self) -> (r: u64)
        requires
            self.wf(),
        ensures
            r == self.num_pages(),
    {
        self.num_pages
    }

    /// The current watermark: data pages below it are in use.
    pub fn watermark(&self) -> (r: u64)
        requires
            self.wf(),
        ensures
            r == self.next_page(),
    {
        self.next_page
    }

    /// The fixed page size.
    pub fn page_size_bytes(&self) -> (r: usize)
        requires
            self.wf(),
        ensures
            r == self.page_size(),
    {
        self.page_size
    }
}

} // verus!
