//! Free regions of flash between fixed sections.
use crate::section::{Section, SectionView};
use vstd::prelude::*;

verus! {

/// A free region of flash, `[start_address, end_address)`, made of pages of `page_size` bytes.
#[derive(Debug, Clone, Copy, PartialEq, Eq)]
pub struct MemoryBin {
    /// First address of the region.
    pub start_address: u64,
    /// First address past the region.
    pub end_address: u64,
    /// Size of a flash page in bytes.
    pub page_size: u64,
}

impl MemoryBin {
    /// The region is ordered and has a page size.
    pub open spec fn wf(self) -> bool {
        self.start_address <= self.end_address && self.page_size > 0
    }

    /// `address` lies in the region.
    pub open spec fn spec_contains(self, address: u64) -> bool {
        self.start_address <= address && address < self.end_address
    }

    /// Bytes from `address` to the end of the region, zero outside it.
    pub open spec fn spec_space_until_end(self, address: u64) -> u64 {
        if self.spec_contains(address) {
            (self.end_address - address) as u64
        } else {
            0
        }
    }

    /// Whole pages from `address` to the end of the region.
    pub open spec fn spec_pages_until_end(self, address: u64) -> u64 {
        self.spec_space_until_end(address) / self.page_size
    }

    /// Whole pages in the region.
    pub open spec fn spec_num_pages(self) -> u64 {
        ((self.end_address - self.start_address) as u64) / self.page_size
    }

    /// A section with requirements `s` fits at `address` in this region.
    pub open spec fn fits_at(self, address: u64, s: SectionView) -> bool {
        &&& s.pages matches Some(p) ==> p <= self.spec_pages_until_end(address)
        &&& s.size matches Some(b) ==> b <= self.spec_space_until_end(address)
    }

    /// Whole pages in the region.
    pub fn num_pages(&self) -> (r: u64)
        requires
            self.wf(),
        ensures
            r == self.spec_num_pages(),
    {
        (self.end_address - self.start_address) / self.page_size
    }

    /// Bytes from `address` to the end of the region, zero outside it.
    pub fn space_until_end(&self, address: u64) -> (r: u64)
        ensures
            r == self.spec_space_until_end(address),
    {
        if !self.contains(address) {
            return 0;
        }
        self.end_address - address
    }

    /// Whole pages from `address` to the end of the region.
    pub fn pages_until_end(&self, address: u64) -> (r: u64)
        requires
            self.page_size > 0,
        ensures
            r == self.spec_pages_until_end(address),
    {
        let space = self.space_until_end(address);
        space / self.page_size
    }

    /// A section fits at `address`: its pages and its byte size end within the region.
    pub fn section_fits_at_address<MetaData: Clone>(
        &self,
        address: u64,
        section: &Section<MetaData>,
    ) -> (r: bool)
        requires
            self.page_size > 0,
        ensures
            r == self.fits_at(address, section@),
    {
        if let Some(page_count) = section.pages() {
            if page_count > self.pages_until_end(address) {
                return false;
            }
        }
        if let Some(size) = section.size() {
            if size > self.space_until_end(address) {
                return false;
            }
        }
        true
    }

    /// `address` lies in the region.
    pub fn contains(&self, address: u64) -> (r: bool)
        ensures
            r == self.spec_contains(address),
    {
        address < self.end_address && address >= self.start_address
    }
}

/// Sum of the whole pages of `bins`.
pub open spec fn total_pages(bins: Seq<MemoryBin>) -> int
    decreases bins.len(),
{
    if bins.len() == 0 {
        0
    } else {
        total_pages(bins.drop_last()) + bins.last().spec_num_pages()
    }
}

/// The free regions of a chip.
#[derive(Debug, Clone, PartialEq)]
pub struct Bin {
    pub(crate) bins: Vec<MemoryBin>,
}

impl Bin {
    /// The regions, in order.
    pub open(crate) spec fn view(&self) -> Seq<MemoryBin> {
        self.bins@
    }

    /// A set of free regions.
    pub fn new(bins: Vec<MemoryBin>) -> (r: Self)
        ensures
            r@ == bins@,
    {
        Bin { bins }
    }

    /// Whole pages over all regions.
    pub fn num_pages(&self) -> (r: u64)
        requires
            forall|i: int| 0 <= i < self@.len() ==> (#[trigger] self@[i]).wf(),
            total_pages(self@) <= u64::MAX,
        ensures
            r == total_pages(self@),
    {
        let mut acc: u64 = 0;
        let n = self.bins.len();
        for i in 0..n
            invariant
                n == self@.len(),
                forall|j: int| 0 <= j < self@.len() ==> (#[trigger] self@[j]).wf(),
                total_pages(self@) <= u64::MAX,
                acc == total_pages(self@.take(i as int)),
        {
            proof {
                assert(self@.take(i + 1).drop_last() =~= self@.take(i as int));
                lemma_total_pages_prefix(self@, i + 1);
            }
            acc = acc + self.bins[i].num_pages();
        }
        proof {
            assert(self@.take(n as int) =~= self@);
        }
        acc
    }

    /// Whole pages over all regions, when the sum fits in `u64`.
    pub fn checked_num_pages(&self) -> (r: Option<u64>)
        requires
            forall|i: int| 0 <= i < self@.len() ==> (#[trigger] self@[i]).wf(),
        ensures
            r is None <==> total_pages(self@) > u64::MAX,
            r matches Some(x) ==> x == total_pages(self@),
    {
        proof {
            lemma_total_pages_nonneg(self@);
        }
        let mut acc: u64 = 0;
        let n = self.bins.len();
        for i in 0..n
            invariant
                n == self@.len(),
                forall|j: int| 0 <= j < self@.len() ==> (#[trigger] self@[j]).wf(),
                acc == total_pages(self@.take(i as int)),
        {
            proof {
                assert(self@.take(i + 1).drop_last() =~= self@.take(i as int));
            }
            match acc.checked_add(self.bins[i].num_pages()) {
                Some(x) => {
                    acc = x;
                },
                None => {
                    proof {
                        lemma_total_pages_grow(self@, i + 1);
                    }
                    return None;
                },
            }
        }
        proof {
            assert(self@.take(n as int) =~= self@);
        }
        Some(acc)
    }

    /// Number of regions.
    pub fn len(&self) -> (r: usize)
        ensures
            r == self@.len(),
    {
        self.bins.len()
    }

    /// True when there is no region.
    pub fn is_empty(&self) -> (r: bool)
        ensures
            r == (self@.len() == 0),
    {
        self.bins.len() == 0
    }

    /// The regions, in order.
    pub fn as_slice(&self) -> (r: &[MemoryBin])
        ensures
            r@ == self@,
    {
        self.bins.as_slice()
    }
}

/// The pages of a prefix are at most those of the whole.
pub(crate) proof fn lemma_total_pages_prefix(bins: Seq<MemoryBin>, k: int)
    requires
        0 <= k <= bins.len(),
    ensures
        0 <= total_pages(bins.take(k)) <= total_pages(bins),
    decreases bins.len(),
{
    if bins.len() == 0 {
        assert(bins.take(k) =~= bins);
    } else if k == bins.len() {
        assert(bins.take(k) =~= bins);
        lemma_total_pages_nonneg(bins);
    } else {
        assert(bins.drop_last().take(k) =~= bins.take(k));
        lemma_total_pages_prefix(bins.drop_last(), k);
    }
}

/// Page totals grow with the prefix.
pub(crate) proof fn lemma_total_pages_grow(bins: Seq<MemoryBin>, k: int)
    requires
        0 <= k <= bins.len(),
    ensures
        total_pages(bins.take(k)) <= total_pages(bins),
    decreases bins.len() - k,
{
    if k < bins.len() {
        lemma_total_pages_grow(bins, k + 1);
        assert(bins.take(k + 1).drop_last() =~= bins.take(k));
    } else {
        assert(bins.take(k) =~= bins);
    }
}

/// Page totals are never negative.
pub(crate) proof fn lemma_total_pages_nonneg(bins: Seq<MemoryBin>)
    ensures
        total_pages(bins) >= 0,
    decreases bins.len(),
{
    if bins.len() > 0 {
        lemma_total_pages_nonneg(bins.drop_last());
    }
}

} // verus!
