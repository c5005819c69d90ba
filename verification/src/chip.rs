//! Chip configuration information.
//!
//! Sizes are byte counts held as plain `u64` values.
use vstd::prelude::*;

verus! {

/// Describes the memory layout of a chip / microcontroller.
#[derive(Debug, Clone, PartialEq)]
pub struct Chip {
    pub(crate) start_address: u64,
    pub(crate) page_size: PageSize,
    pub(crate) total_size: u64,
}

/// Chip-related errors.
#[derive(Debug, Clone, Copy, PartialEq, Eq, Structural)]
pub enum ChipError {
    /// Total size of the chip is not a multiple of the page size.
    TotalSizePageSizeMismatch,
}

/// Chip flash page size layout, in bytes.
#[derive(Debug, Clone, PartialEq)]
pub enum PageSize {
    /// Chip contains a uniform flash page layout.
    Uniform(u64),
    /// Chip contains flash pages with different sizes.
    Heterogeneous(Vec<u64>),
}

impl Chip {
    /// First address of the flash.
    pub open(crate) spec fn spec_start_address(&self) -> u64 {
        self.start_address
    }

    /// Total flash size in bytes.
    pub open(crate) spec fn spec_total_size(&self) -> u64 {
        self.total_size
    }

    /// The page layout.
    pub open(crate) spec fn spec_page_size(&self) -> PageSize {
        self.page_size
    }

    /// The page size when the layout is uniform (zero otherwise).
    pub open(crate) spec fn uniform_page_size(&self) -> u64 {
        match self.page_size {
            PageSize::Uniform(p) => p,
            PageSize::Heterogeneous(_) => 0,
        }
    }

    /// The chip has a uniform page layout with non-zero pages.
    pub open(crate) spec fn has_uniform_pages(&self) -> bool {
        &&& self.page_size is Uniform
        &&& self.uniform_page_size() > 0
    }

    /// The end of the flash fits in the address space.
    pub open(crate) spec fn end_fits(&self) -> bool {
        self.start_address + self.total_size <= u64::MAX
    }

    /// The first address past the flash.
    pub open(crate) spec fn spec_end_address(&self) -> int {
        self.start_address + self.total_size
    }

    /// Creates a new chip layout from sizes in bytes.
    ///
    /// # Errors
    ///
    /// Will return a `ChipError::TotalSizePageSizeMismatch` when the total size is not a multiple
    /// of the page size.
    pub fn new(page_size: u64, start_address: u64, total_size: u64) -> (r: Result<Self, ChipError>)
        requires
            page_size > 0,
        ensures
            r is Ok <==> total_size % page_size == 0,
            r is Err ==> r == Err::<Self, ChipError>(ChipError::TotalSizePageSizeMismatch),
            r matches Ok(c) ==> {
                &&& c.spec_start_address() == start_address
                &&& c.spec_total_size() == total_size
                &&& c.spec_page_size() == PageSize::Uniform(page_size)
            },
    {
        if total_size % page_size != 0 {
            return Err(ChipError::TotalSizePageSizeMismatch);
        }
        Ok(Chip { start_address, page_size: PageSize::Uniform(page_size), total_size })
    }

    /// Creates a new chip layout from `u64` interpreted as bytes.
    ///
    /// # Errors
    ///
    /// Will return a `ChipError::TotalSizePageSizeMismatch` when the total size is not a multiple
    /// of the page size.
    pub fn new_bytes(page_size: u64, start_address: u64, total_size: u64) -> (r: Result<
        Self,
        ChipError,
    >)
        requires
            page_size > 0,
        ensures
            r is Ok <==> total_size % page_size == 0,
            r is Err ==> r == Err::<Self, ChipError>(ChipError::TotalSizePageSizeMismatch),
            r matches Ok(c) ==> {
                &&& c.spec_start_address() == start_address
                &&& c.spec_total_size() == total_size
                &&& c.spec_page_size() == PageSize::Uniform(page_size)
            },
    {
        Self::new(page_size, start_address, total_size)
    }

    /// Creates a chip from its description as given, without checking the sizes against each
    /// other.
    pub fn from_parts(start_address: u64, page_size: PageSize, total_size: u64) -> (r: Self)
        ensures
            r.spec_start_address() == start_address,
            r.spec_total_size() == total_size,
            r.spec_page_size() == page_size,
    {
        Chip { start_address, page_size, total_size }
    }

    /// Returns the boot address of this chip.
    ///
    /// The section marked as bootable will be allocated on this address.
    pub fn start_address(&self) -> (r: u64)
        ensures
            r == self.spec_start_address(),
    {
        self.start_address
    }

    /// Returns the total size of the flash in bytes.
    pub fn total_size(&self) -> (r: u64)
        ensures
            r == self.spec_total_size(),
    {
        self.total_size
    }

    /// Returns the page layout of the flash.
    pub fn page_size(&self) -> (r: &PageSize)
        ensures
            *r == self.spec_page_size(),
    {
        &self.page_size
    }

    /// Returns the last address of this chip; the start address for a chip without flash.
    pub fn end_address(&self) -> (r: u64)
        requires
            self.spec_end_address() - 1 <= u64::MAX,
        ensures
            r == (if self.spec_total_size() == 0 {
                self.spec_start_address() as int
            } else {
                self.spec_end_address() - 1
            }),
    {
        if self.total_size == 0 {
            self.start_address
        } else {
            self.start_address + (self.total_size - 1)
        }
    }

    /// The first address past the flash.
    pub(crate) fn end_exclusive(&self) -> (r: u64)
        requires
            self.end_fits(),
        ensures
            r == self.spec_end_address(),
    {
        self.start_address + self.total_size
    }

    /// Size of the flash page at `address`.
    pub(crate) fn page_size_at(&self, address: u64) -> (r: u64)
        requires
            self.spec_page_size() is Uniform,
        ensures
            r == self.uniform_page_size(),
    {
        match &self.page_size {
            PageSize::Uniform(p) => *p,
            PageSize::Heterogeneous(_) => 0,
        }
    }
}

} // verus!
