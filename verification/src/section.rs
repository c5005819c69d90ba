//! Memory sections.
//!
//! Sections can be maximized, to take up as much flash space as possible within the constraints.
use crate::chip::Chip;
use vstd::prelude::*;
use vstd::string::StringExecFns;

verus! {

/// Characters accepted in a linker script memory name.
pub open spec fn valid_name_char(c: char) -> bool {
    ||| ('a' <= c && c <= 'z')
    ||| ('A' <= c && c <= 'Z')
    ||| ('0' <= c && c <= '9')
    ||| c == '_'
}

/// A name usable as a linker script memory name: ASCII letters, digits and `_` only.
pub open spec fn valid_section_name(name: Seq<char>) -> bool {
    forall|i: int| 0 <= i < name.len() ==> valid_name_char(#[trigger] name[i])
}

/// `a / b` rounded up.
pub open spec fn div_ceil(a: u64, b: u64) -> u64
    recommends
        b > 0,
{
    if a % b == 0 {
        a / b
    } else {
        (a / b + 1) as u64
    }
}

/// The larger of two optional bounds, keeping the first when the second is absent.
pub open spec fn max_bound(current: Option<u64>, other: Option<u64>) -> Option<u64> {
    match other {
        Some(o) => match current {
            Some(c) => if c < o {
                Some(o)
            } else {
                Some(c)
            },
            None => Some(o),
        },
        None => current,
    }
}

/// The first value when present, else the second.
pub open spec fn first_set<T>(current: Option<T>, other: Option<T>) -> Option<T> {
    match current {
        Some(c) => Some(c),
        None => other,
    }
}

/// The requirements of a section, without its metadata.
pub struct SectionView {
    /// Name of the section.
    pub name: Seq<char>,
    /// Allocated at the chip start address.
    pub boot: bool,
    /// Grows to take up free space.
    pub maximize: bool,
    /// Minimum number of pages.
    pub pages: Option<u64>,
    /// Minimum size in bytes.
    pub size: Option<u64>,
    /// Exact address.
    pub address: Option<u64>,
    /// Address alignment.
    pub address_align: Option<u64>,
    /// Extra pages relative to other maximized sections.
    pub relative_pages: i64,
    /// Name used in linker scripts.
    pub linker_name: Option<Seq<char>>,
}

impl SectionView {
    /// The section must be allocated at an exact address.
    pub open spec fn is_fixed(self) -> bool {
        self.boot || self.address is Some
    }

    /// The section location is fully defined.
    pub open spec fn is_resolved(self) -> bool {
        self.is_fixed() && (self.pages is Some || self.size is Some) && !self.maximize
    }

    /// The section grows to take up free space.
    pub open spec fn needs_maximizing(self) -> bool {
        self.maximize
    }

    /// The section is placed by the solver at a size it states.
    pub open spec fn needs_allocating(self) -> bool {
        !self.maximize && !self.is_fixed()
    }

    /// Pages asked for explicitly, zero when unset.
    pub open spec fn page_bound(self) -> u64 {
        match self.pages {
            Some(p) => p,
            None => 0,
        }
    }

    /// Pages needed to hold the byte size, zero when unset.
    pub open spec fn size_page_bound(self, page_size: u64) -> u64 {
        match self.size {
            Some(s) => div_ceil(s, page_size),
            None => 0,
        }
    }

    /// Pages needed for this section with pages of `page_size` bytes.
    pub open spec fn required_pages(self, page_size: u64) -> Result<u64, SectionError> {
        let p = self.page_bound();
        let s = self.size_page_bound(page_size);
        if p == 0 && s == 0 {
            Err(SectionError::NoSizeBound)
        } else if p < s {
            Ok(s)
        } else {
            Ok(p)
        }
    }

    /// Address of the section on `chip`.
    pub open spec fn start_address(self, chip_start: u64) -> Result<u64, SectionError> {
        if self.boot {
            Ok(chip_start)
        } else {
            match self.address {
                Some(a) => Ok(a),
                None => Err(SectionError::UnresolvedSection),
            }
        }
    }

    /// The products of page counts and the page size stay within `u64`.
    pub open spec fn page_bytes_fit(self, page_size: u64) -> bool {
        self.pages matches Some(p) ==> p * page_size <= u64::MAX
    }

    /// Number of pages and byte size of the section on `chip`.
    pub open spec fn page_and_size(self, chip_start: u64, page_size: u64) -> Result<
        (u64, u64),
        SectionError,
    > {
        match self.start_address(chip_start) {
            Err(e) => Err(e),
            Ok(_) => match (self.pages, self.size) {
                (None, None) => Err(SectionError::UnresolvedSection),
                (None, Some(size)) => match self.required_pages(page_size) {
                    Ok(p) => Ok((p, size)),
                    Err(e) => Err(e),
                },
                (Some(pages), None) => Ok((pages, (page_size * pages) as u64)),
                (Some(pages), Some(size)) => if size > page_size * pages {
                    match self.required_pages(page_size) {
                        Ok(p) => Ok((p, size)),
                        Err(e) => Err(e),
                    }
                } else {
                    Ok((pages, (page_size * pages) as u64))
                },
            },
        }
    }

    /// The name written in linker scripts.
    pub open spec fn effective_linker_name(self) -> Seq<char> {
        match self.linker_name {
            Some(n) => n,
            None => self.name,
        }
    }

    /// The requirements of `self` extended with those of `other`.
    pub open spec fn merged(self, other: SectionView) -> SectionView {
        SectionView {
            name: self.name,
            boot: self.boot || other.boot,
            maximize: self.maximize || other.maximize,
            pages: max_bound(self.pages, other.pages),
            size: max_bound(self.size, other.size),
            address: first_set(self.address, other.address),
            address_align: self.address_align,
            relative_pages: if self.relative_pages < other.relative_pages {
                other.relative_pages
            } else {
                self.relative_pages
            },
            linker_name: first_set(self.linker_name, other.linker_name),
        }
    }
}

/// A Memory section.
#[derive(Debug, Clone, PartialEq)]
pub struct Section<MetaData: Clone> {
    /// Name of this section
    pub name: String,
    pub(crate) boot: bool,
    pub(crate) maximize: bool,
    pub(crate) pages: Option<u64>,
    /// The size of the section in bytes
    pub(crate) size: Option<u64>,
    pub(crate) address: Option<u64>,
    pub(crate) address_align: Option<u64>,
    pub(crate) relative_pages: i64,
    pub(crate) linker_name: Option<String>,
    pub(crate) metadata: MetaData,
}

/// Errors related to sections
#[derive(Clone, Copy, Debug, PartialEq, Eq, Structural)]
pub enum SectionError {
    /// Section name cannot be used in linker scripts.
    InvalidSectionName,
    /// Section is not fully resolved while it must be already.
    UnresolvedSection,
    /// Section does not have a size bound and can not be resolved.
    NoSizeBound,
}

/// The view of an optional string.
pub open spec fn opt_str_view(s: Option<String>) -> Option<Seq<char>> {
    match s {
        Some(x) => Some(x@),
        None => None,
    }
}

/// A new section named `name` without any requirement.
pub open spec fn fresh_section(name: Seq<char>) -> SectionView {
    SectionView {
        name,
        boot: false,
        maximize: false,
        pages: None,
        size: None,
        address: None,
        address_align: None,
        relative_pages: 0,
        linker_name: None,
    }
}

/// `a / b` rounded up.
pub(crate) fn exec_div_ceil(a: u64, b: u64) -> (r: u64)
    requires
        b > 0,
    ensures
        r == div_ceil(a, b),
{
    if a % b == 0 {
        a / b
    } else {
        proof {
            assert(a / b < u64::MAX) by (nonlinear_arith)
                requires
                    b > 0,
                    a % b != 0,
            ;
        }
        a / b + 1
    }
}

impl<MetaData: Clone> Section<MetaData> {
    /// The requirements of this section.
    pub open(crate) spec fn view(&self) -> SectionView {
        SectionView {
            name: self.name@,
            boot: self.boot,
            maximize: self.maximize,
            pages: self.pages,
            size: self.size,
            address: self.address,
            address_align: self.address_align,
            relative_pages: self.relative_pages,
            linker_name: opt_str_view(self.linker_name),
        }
    }

    /// The extra data attached to this section.
    pub open(crate) spec fn spec_metadata(&self) -> MetaData {
        self.metadata
    }
}

impl Section<()> {
    /// Create a new section.
    ///
    /// The `name` of the section must be a valid ``LD_MEMORY`` memory name.
    ///
    /// # Errors
    ///
    /// - [`SectionError::InvalidSectionName`]: when the `name` is not valid.
    pub fn new(name: &str) -> (r: Result<Self, SectionError>)
        ensures
            r is Ok <==> valid_section_name(name@),
            r is Err ==> r == Err::<Self, SectionError>(SectionError::InvalidSectionName),
            r matches Ok(s) ==> s@ == fresh_section(name@),
    {
        let name = name.to_owned();
        match Self::check_valid_section_name(name.as_str()) {
            Err(e) => Err(e),
            Ok(()) => Ok(
                Section {
                    name,
                    boot: false,
                    maximize: false,
                    pages: None,
                    size: None,
                    address: None,
                    address_align: None,
                    relative_pages: 0,
                    linker_name: None,
                    metadata: (),
                },
            ),
        }
    }

    /// A section with the requirements given, as a description states them; the names are
    /// taken as they are.
    pub fn from_requirements(
        name: String,
        boot: bool,
        maximize: bool,
        pages: Option<u64>,
        size: Option<u64>,
        address: Option<u64>,
        address_align: Option<u64>,
        relative_pages: i64,
        linker_name: Option<String>,
    ) -> (r: Self)
        ensures
            r@ == (SectionView {
                name: name@,
                boot,
                maximize,
                pages,
                size,
                address,
                address_align,
                relative_pages,
                linker_name: opt_str_view(linker_name),
            }),
    {
        Section {
            name,
            boot,
            maximize,
            pages,
            size,
            address,
            address_align,
            relative_pages,
            linker_name,
            metadata: (),
        }
    }

    /// Check if `name` is a valid linker script section name.
    ///
    /// This is best effort for lack of exact spec.
    pub(crate) fn check_valid_section_name(name: &str) -> (r: Result<(), SectionError>)
        ensures
            r is Ok <==> valid_section_name(name@),
            r is Err ==> r == Err::<(), SectionError>(SectionError::InvalidSectionName),
    {
        let chars: Vec<char> = collect_chars(name);
        let n = chars.len();
        for i in 0..n
            invariant
                n == chars@.len(),
                chars@ == name@,
                forall|j: int| 0 <= j < i ==> valid_name_char(#[trigger] name@[j]),
        {
            let c = chars[i];
            let ok = ('a' <= c && c <= 'z') || ('A' <= c && c <= 'Z') || ('0' <= c && c <= '9')
                || c == '_';
            if !ok {
                return Err(SectionError::InvalidSectionName);
            }
        }
        Ok(())
    }
}

impl<MetaData: Clone> Section<MetaData> {
    /// A copy of this section, with its metadata cloned.
    pub(crate) fn duplicate(&self) -> (r: Self)
        ensures
            r@ == self@,
            cloned(self.spec_metadata(), r.spec_metadata()),
    {
        let linker_name = match &self.linker_name {
            Some(n) => Some(n.clone()),
            None => None,
        };
        Section {
            name: self.name.clone(),
            boot: self.boot,
            maximize: self.maximize,
            pages: self.pages,
            size: self.size,
            address: self.address,
            address_align: self.address_align,
            relative_pages: self.relative_pages,
            linker_name,
            metadata: self.metadata.clone(),
        }
    }

    /// Extends the section with the requirements from another.
    ///
    /// boot and maximize are OR'ed between the two instances. number of pages and byte size take
    /// the maximum of both. Address is ignored unless one instance doesn't have it set.
    pub fn merge(&mut self, sec: &Self)
        ensures
            final(self)@ == old(self)@.merged(sec@),
            final(self).spec_metadata() == old(self).spec_metadata(),
    {
        self.boot = self.boot || sec.boot;
        self.maximize = self.maximize || sec.maximize;
        if let Some(pages) = sec.pages {
            let replace = match self.pages {
                None => true,
                Some(p) => p < pages,
            };
            if replace {
                self.pages = Some(pages);
            }
        }
        if let Some(size) = sec.size {
            let replace = match self.size {
                None => true,
                Some(s) => s < size,
            };
            if replace {
                self.size = Some(size);
            }
        }
        if let Some(address) = sec.address {
            if self.address.is_none() {
                self.address = Some(address);
            }
        }
        if self.relative_pages < sec.relative_pages {
            self.relative_pages = sec.relative_pages;
        }
        if let Some(linker_name) = &sec.linker_name {
            if self.linker_name.is_none() {
                self.linker_name = Some(linker_name.clone());
            }
        }
    }

    /// Set the boot flag.
    pub fn set_boot(self, boot: bool) -> (r: Self)
        ensures
            r@ == (SectionView { boot, ..self@ }),
            r.spec_metadata() == self.spec_metadata(),
    {
        let mut s = self;
        s.boot = boot;
        s
    }

    /// Set the maximize flag.
    pub fn set_maximize(self, maximize: bool) -> (r: Self)
        ensures
            r@ == (SectionView { maximize, ..self@ }),
            r.spec_metadata() == self.spec_metadata(),
    {
        let mut s = self;
        s.maximize = maximize;
        s
    }

    /// Set the minimum number of pages for this section.
    pub fn set_pages(self, pages: u64) -> (r: Self)
        ensures
            r@ == (SectionView { pages: Some(pages), ..self@ }),
            r.spec_metadata() == self.spec_metadata(),
    {
        let mut s = self;
        s.pages = Some(pages);
        s
    }

    /// Clear the minimum number of pages for this section.
    pub fn clear_pages(self) -> (r: Self)
        ensures
            r@ == (SectionView { pages: None, ..self@ }),
            r.spec_metadata() == self.spec_metadata(),
    {
        let mut s = self;
        s.pages = None;
        s
    }

    /// Set the minimum size in bytes for this section.
    pub fn set_size(self, bytes: u64) -> (r: Self)
        ensures
            r@ == (SectionView { size: Some(bytes), ..self@ }),
            r.spec_metadata() == self.spec_metadata(),
    {
        let mut s = self;
        s.size = Some(bytes);
        s
    }

    /// Set the minimum size for this section, given as a quantity of bytes.
    pub fn set_size_bytes(self, bytes: u64) -> (r: Self)
        ensures
            r@ == (SectionView { size: Some(bytes), ..self@ }),
            r.spec_metadata() == self.spec_metadata(),
    {
        self.set_size(bytes)
    }

    /// Clear the minimum size for this section.
    pub fn clear_size(self) -> (r: Self)
        ensures
            r@ == (SectionView { size: None, ..self@ }),
            r.spec_metadata() == self.spec_metadata(),
    {
        let mut s = self;
        s.size = None;
        s
    }

    /// Set the exact address for this section.
    pub fn set_address(self, address: u64) -> (r: Self)
        ensures
            r@ == (SectionView { address: Some(address), ..self@ }),
            r.spec_metadata() == self.spec_metadata(),
    {
        let mut s = self;
        s.address = Some(address);
        s
    }

    /// Set the number of extra pages required while maximizing this section
    ///
    /// Only used when `Self::maximize` is true
    pub fn set_relative_pages(self, num: i64) -> (r: Self)
        ensures
            r@ == (SectionView { relative_pages: num, ..self@ }),
            r.spec_metadata() == self.spec_metadata(),
    {
        let mut s = self;
        s.relative_pages = num;
        s
    }

    /// clear the number of extra pages required while maximizing this section
    pub fn clear_relative_pages(self) -> (r: Self)
        ensures
            r@ == (SectionView { relative_pages: 0, ..self@ }),
            r.spec_metadata() == self.spec_metadata(),
    {
        let mut s = self;
        s.relative_pages = 0;
        s
    }

    /// Clear the exact address for this section.
    pub fn clear_address(self) -> (r: Self)
        ensures
            r@ == (SectionView { address: None, ..self@ }),
            r.spec_metadata() == self.spec_metadata(),
    {
        let mut s = self;
        s.address = None;
        s
    }

    /// Set the address alignment restrictions for this section.
    pub fn set_address_align(self, align: u64) -> (r: Self)
        ensures
            r@ == (SectionView { address_align: Some(align), ..self@ }),
            r.spec_metadata() == self.spec_metadata(),
    {
        let mut s = self;
        s.address_align = Some(align);
        s
    }

    /// Clear the address alignment restrictions for this section.
    pub fn clear_address_align(self) -> (r: Self)
        ensures
            r@ == (SectionView { address_align: None, ..self@ }),
            r.spec_metadata() == self.spec_metadata(),
    {
        let mut s = self;
        s.address_align = None;
        s
    }

    /// The section must be allocated at an exact address.
    pub fn is_fixed(&self) -> (r: bool)
        ensures
            r == self@.is_fixed(),
    {
        self.boot || self.address.is_some()
    }

    /// Get the number of pages required for this section.
    ///
    /// Both requirements count: the larger of the requested pages and the pages holding the
    /// byte size, zero when neither is set.
    pub fn pages_required(&self, page_size: u64) -> (r: u64)
        requires
            page_size > 0 || self@.size is None,
        ensures
            r == (if self@.page_bound() < self@.size_page_bound(page_size) {
                self@.size_page_bound(page_size)
            } else {
                self@.page_bound()
            }),
    {
        let p = match self.pages {
            Some(p) => p,
            None => 0,
        };
        let q = match self.size {
            Some(size) => exec_div_ceil(size, page_size),
            None => 0,
        };
        if p < q {
            q
        } else {
            p
        }
    }

    /// Set the linker script name used for this section.
    /// # Errors
    ///
    /// - [`SectionError::InvalidSectionName`]: when the `name` is not valid.
    pub fn set_linker_name(self, name: &str) -> (r: Result<Self, SectionError>)
        ensures
            r is Ok <==> valid_section_name(name@),
            r is Err ==> r == Err::<Self, SectionError>(SectionError::InvalidSectionName),
            r matches Ok(s) ==> s@ == (SectionView { linker_name: Some(name@), ..self@ })
                && s.spec_metadata() == self.spec_metadata(),
    {
        let name = name.to_owned();
        match Section::<()>::check_valid_section_name(name.as_str()) {
            Err(e) => Err(e),
            Ok(()) => {
                let mut s = self;
                s.linker_name = Some(name);
                Ok(s)
            },
        }
    }

    /// Get the currently used linker name for this section.
    ///
    /// Equals the section name if unset.
    pub(crate) fn linker_name(&self) -> (r: String)
        ensures
            r@ == self@.effective_linker_name(),
    {
        match &self.linker_name {
            Some(n) => n.clone(),
            None => self.name.clone(),
        }
    }

    /// The section location is fully defined
    pub fn is_resolved(&self) -> (r: bool)
        ensures
            r == self@.is_resolved(),
    {
        let resolved_size = self.pages.is_some() || self.size.is_some();
        self.is_fixed() && resolved_size && !self.maximize
    }

    /// Returns true if this section needs to be maximized.
    pub fn needs_maximizing(&self) -> (r: bool)
        ensures
            r == self@.needs_maximizing(),
    {
        self.maximize
    }

    /// Returns true if this section is not at a fixed position or requires resizing.
    pub fn needs_allocating(&self) -> (r: bool)
        ensures
            r == self@.needs_allocating(),
    {
        !self.needs_maximizing() && !self.is_fixed()
    }

    /// Resolves a fully defined section into its address, pages and size on `chip`.
    pub fn as_resolved(&self, chip: &Chip) -> (r: Result<ResolvedSection<MetaData>, SectionError>)
        requires
            chip.has_uniform_pages(),
            self@.is_resolved() ==> self@.page_bytes_fit(chip.uniform_page_size()),
        ensures
            !self@.is_resolved() ==> r == Err::<ResolvedSection<MetaData>, SectionError>(
                SectionError::UnresolvedSection,
            ),
            self@.is_resolved() ==> match self@.page_and_size(
                chip.spec_start_address(),
                chip.uniform_page_size(),
            ) {
                Err(e) => r == Err::<ResolvedSection<MetaData>, SectionError>(e),
                Ok((pages, size)) => r matches Ok(rs) && rs.name@ == self@.name && rs.pages
                    == pages && rs.size == size && self@.start_address(chip.spec_start_address())
                    == Ok::<u64, SectionError>(rs.address) && rs.linker_name@
                    == self@.effective_linker_name() && cloned(
                    self.spec_metadata(),
                    rs.metadata,
                ),
            },
    {
        if !self.is_resolved() {
            return Err(SectionError::UnresolvedSection);
        }
        let address = match self.start_address(chip) {
            Ok(a) => a,
            Err(e) => return Err(e),
        };
        let (pages, size) = match self.resolve_page_and_size(chip) {
            Ok(ps) => ps,
            Err(e) => return Err(e),
        };
        Ok(
            ResolvedSection {
                name: self.name.clone(),
                pages,
                size,
                address,
                linker_name: self.linker_name(),
                metadata: self.metadata.clone(),
            },
        )
    }

    /// Address of this section on `chip`: the chip start for a boot section, else its
    /// exact address.
    pub fn start_address(&self, chip: &Chip) -> (r: Result<u64, SectionError>)
        ensures
            r == self@.start_address(chip.spec_start_address()),
    {
        if self.boot {
            Ok(chip.start_address())
        } else {
            match self.address {
                Some(a) => Ok(a),
                None => Err(SectionError::UnresolvedSection),
            }
        }
    }

    /// Pages needed for this section with pages of `page_size` bytes: the larger of the
    /// requested pages and the pages holding the byte size.
    pub fn required_pages(&self, page_size: u64) -> (r: Result<u64, SectionError>)
        requires
            page_size > 0 || self@.size is None,
        ensures
            r == self@.required_pages(page_size),
    {
        let page_required = match self.pages {
            Some(p) => p,
            None => 0,
        };
        let size_pages = match self.size {
            Some(size) => exec_div_ceil(size, page_size),
            None => 0,
        };
        if page_required == 0 && size_pages == 0 {
            Err(SectionError::NoSizeBound)
        } else if page_required < size_pages {
            Ok(size_pages)
        } else {
            Ok(page_required)
        }
    }

    /// Number of pages and byte size of this section on `chip`.
    pub fn resolve_page_and_size(&self, chip: &Chip) -> (r: Result<(u64, u64), SectionError>)
        requires
            chip.has_uniform_pages(),
            self@.page_bytes_fit(chip.uniform_page_size()),
        ensures
            r == self@.page_and_size(chip.spec_start_address(), chip.uniform_page_size()),
    {
        if let Err(e) = self.start_address(chip) {
            return Err(e);
        }
        let address = chip.start_address();
        let page_size = chip.page_size_at(address);
        match (self.pages, self.size) {
            (None, None) => Err(SectionError::UnresolvedSection),
            (None, Some(size)) => match self.required_pages(page_size) {
                Ok(p) => Ok((p, size)),
                Err(e) => Err(e),
            },
            (Some(pages), None) => Ok((pages, page_size * pages)),
            (Some(pages), Some(size)) => {
                let size_of_pages = page_size * pages;
                if size > size_of_pages {
                    match self.required_pages(page_size) {
                        Ok(p) => Ok((p, size)),
                        Err(e) => Err(e),
                    }
                } else {
                    Ok((pages, size_of_pages))
                }
            },
        }
    }

    /// Pages needed for this section in `bin`.
    pub(crate) fn required_pages_in_bin(&self, bin: &crate::bin::MemoryBin) -> (r: Result<
        u64,
        SectionError,
    >)
        requires
            bin.page_size > 0,
        ensures
            r == self@.required_pages(bin.page_size),
    {
        self.required_pages(bin.page_size)
    }

    /// This section with its metadata replaced by `data`.
    pub fn replace_metadata<NewData: Clone>(self, data: NewData) -> (r: Section<NewData>)
        ensures
            r@ == self@,
            r.spec_metadata() == data,
    {
        Section {
            name: self.name,
            boot: self.boot,
            maximize: self.maximize,
            pages: self.pages,
            size: self.size,
            address: self.address,
            address_align: self.address_align,
            relative_pages: self.relative_pages,
            linker_name: self.linker_name,
            metadata: data,
        }
    }

    /// Remove the extra metadata from this section.
    pub fn clear_metadata(self) -> (r: Section<()>)
        ensures
            r@ == self@,
    {
        self.replace_metadata(())
    }

    /// The text `Section(name)`.
    pub fn display(&self) -> (r: String)
        ensures
            r@ == "Section("@ + self@.name + ")"@,
    {
        let mut out = String::from_str("Section(");
        out.append(self.name.as_str());
        out.append(")");
        out
    }

    /// Name of this section.
    pub fn name(&self) -> (r: &str)
        ensures
            r@ == self@.name,
    {
        self.name.as_str()
    }

    /// Whether the section is placed at the chip start address.
    pub fn boot(&self) -> (r: bool)
        ensures
            r == self@.boot,
    {
        self.boot
    }

    /// Whether the section grows to take up free space.
    pub fn maximize(&self) -> (r: bool)
        ensures
            r == self@.maximize,
    {
        self.maximize
    }

    /// The minimum number of pages, if set.
    pub fn pages(&self) -> (r: Option<u64>)
        ensures
            r == self@.pages,
    {
        self.pages
    }

    /// The minimum size in bytes, if set.
    pub fn size(&self) -> (r: Option<u64>)
        ensures
            r == self@.size,
    {
        self.size
    }

    /// The exact address, if set.
    pub fn address(&self) -> (r: Option<u64>)
        ensures
            r == self@.address,
    {
        self.address
    }

    /// The address alignment, if set.
    pub fn address_align(&self) -> (r: Option<u64>)
        ensures
            r == self@.address_align,
    {
        self.address_align
    }

    /// The extra pages relative to other maximized sections.
    pub fn relative_pages(&self) -> (r: i64)
        ensures
            r == self@.relative_pages,
    {
        self.relative_pages
    }

    /// The linker script name, if set.
    pub fn linker_name_override(&self) -> (r: Option<&String>)
        ensures
            opt_str_view(
                match r {
                    Some(s) => Some(*s),
                    None => None,
                },
            ) == self@.linker_name,
    {
        match &self.linker_name {
            Some(n) => Some(n),
            None => None,
        }
    }

    /// A copy of the linker script name, if set.
    pub(crate) fn linker_name_override_owned(&self) -> (r: Option<String>)
        ensures
            opt_str_view(r) == self@.linker_name,
    {
        match &self.linker_name {
            Some(n) => Some(n.clone()),
            None => None,
        }
    }

    /// The extra data attached to this section.
    pub fn metadata(&self) -> (r: &MetaData)
        ensures
            *r == self.spec_metadata(),
    {
        &self.metadata
    }
}

/// Where and how large a fully defined section is.
pub struct Placement {
    /// Name of the section.
    pub name: Seq<char>,
    /// Number of pages.
    pub pages: u64,
    /// Size in bytes.
    pub size: u64,
    /// Start address.
    pub address: u64,
    /// Name used in linker scripts.
    pub linker_name: Seq<char>,
}

/// The placement recorded in a resolved section.
pub open spec fn placement_of<MetaData: Clone>(r: ResolvedSection<MetaData>) -> Placement {
    Placement {
        name: r.name@,
        pages: r.pages,
        size: r.size,
        address: r.address,
        linker_name: r.linker_name@,
    }
}

/// A fully resolved memory section
#[derive(Debug, Clone, PartialEq)]
pub struct ResolvedSection<MetaData: Clone> {
    /// Name of this section.
    pub name: String,
    /// Number of pages this section uses.
    pub pages: u64,
    /// Size of this section in bytes.
    pub size: u64,
    /// Start address of this section.
    pub address: u64,
    /// Linker script section name.
    pub linker_name: String,
    /// Extra metadata
    pub metadata: MetaData,
}

impl<MetaData: Clone> ResolvedSection<MetaData> {
    /// A resolved section; the linker name defaults to the section name.
    pub(crate) fn new(
        name: String,
        pages: u64,
        size: u64,
        address: u64,
        linker_name: Option<String>,
        metadata: MetaData,
    ) -> (r: Self)
        ensures
            r.name@ == name@,
            r.pages == pages,
            r.size == size,
            r.address == address,
            r.linker_name@ == (match linker_name {
                Some(n) => n@,
                None => name@,
            }),
            r.metadata == metadata,
    {
        let linker_name = match linker_name {
            Some(n) => n,
            None => name.clone(),
        };
        ResolvedSection { name, pages, size, address, linker_name, metadata }
    }
}

/// The characters of `s`, in order.
fn collect_chars(s: &str) -> (r: Vec<char>)
    ensures
        r@ == s@,
{
    let mut out: Vec<char> = Vec::new();
    for c in it: s.chars()
        invariant
            out@ == it.seq().take(it.index() as int),
            it.seq() == s@,
    {
        out.push(c);
    }
    out
}


/// Merging a section's requirements with themselves changes nothing.
pub proof fn lemma_merge_self(s: SectionView)
    ensures
        s.merged(s) == s,
{
}

/// Merging the same requirements a second time changes nothing more.
pub proof fn lemma_merge_again(s: SectionView, o: SectionView)
    ensures
        s.merged(o).merged(o) == s.merged(o),
{
}


/// A section is resolved in exactly one way: it is maximized, placed by the solver at the size
/// it states, or fixed with a size; a fixed section that states no size is none of these.
pub proof fn lemma_section_route(s: SectionView)
    ensures
        s.needs_maximizing() ==> !s.needs_allocating() && !s.is_resolved(),
        s.needs_allocating() ==> !s.is_resolved(),
        (!s.needs_maximizing() && !s.needs_allocating() && !s.is_resolved()) <==> (s.is_fixed()
            && !s.maximize && s.pages is None && s.size is None),
{
}


/// The characters of a linker script memory name are exactly the ASCII letters and digits and
/// `_`: the codes 48 to 57, 65 to 90, 97 to 122, and 95.
pub proof fn lemma_valid_name_chars(c: char)
    ensures
        valid_name_char(c) <==> {
            ||| 48 <= (c as u32) <= 57
            ||| 65 <= (c as u32) <= 90
            ||| 97 <= (c as u32) <= 122
            ||| (c as u32) == 95
        },
{
}

/// A name made only of ASCII letters, digits and `_` is a valid section name, and a name
/// holding any other character is not.
pub proof fn lemma_valid_section_names(name: Seq<char>)
    ensures
        valid_section_name(name) <==> forall|i: int|
            0 <= i < name.len() ==> {
                ||| 48 <= (#[trigger] name[i] as u32) <= 57
                ||| 65 <= (name[i] as u32) <= 90
                ||| 97 <= (name[i] as u32) <= 122
                ||| (name[i] as u32) == 95
            },
{
    assert forall|i: int| 0 <= i < name.len() implies (valid_name_char(#[trigger] name[i]) <==> {
        ||| 48 <= (name[i] as u32) <= 57
        ||| 65 <= (name[i] as u32) <= 90
        ||| 97 <= (name[i] as u32) <= 122
        ||| (name[i] as u32) == 95
    }) by {
        lemma_valid_name_chars(name[i]);
    }
}

/// Merging keeps the name and alignment of the first section, ORs the boot and maximize
/// flags, keeps the first exact address and linker name that is set, and takes the larger of
/// the page counts, of the byte sizes and of the relative pages: a bound set on either side is
/// set in the result, at least as large as each, and equal to one of them.
pub proof fn lemma_merge_bounds(s: SectionView, o: SectionView)
    ensures
        s.merged(o).name == s.name,
        s.merged(o).address_align == s.address_align,
        s.merged(o).boot == (s.boot || o.boot),
        s.merged(o).maximize == (s.maximize || o.maximize),
        s.merged(o).size is None <==> (s.size is None && o.size is None),
        s.size matches Some(a) ==> s.merged(o).size->Some_0 >= a,
        o.size matches Some(b) ==> s.merged(o).size->Some_0 >= b,
        s.merged(o).size matches Some(z) ==> (s.size == Some(z) || o.size == Some(z)),
        s.merged(o).pages is None <==> (s.pages is None && o.pages is None),
        s.pages matches Some(a) ==> s.merged(o).pages->Some_0 >= a,
        o.pages matches Some(b) ==> s.merged(o).pages->Some_0 >= b,
        s.merged(o).pages matches Some(z) ==> (s.pages == Some(z) || o.pages == Some(z)),
        s.address is Some ==> s.merged(o).address == s.address,
        s.address is None ==> s.merged(o).address == o.address,
        s.linker_name is Some ==> s.merged(o).linker_name == s.linker_name,
        s.linker_name is None ==> s.merged(o).linker_name == o.linker_name,
        s.merged(o).relative_pages >= s.relative_pages,
        s.merged(o).relative_pages >= o.relative_pages,
        s.merged(o).relative_pages == s.relative_pages || s.merged(o).relative_pages
            == o.relative_pages,
{
}

} // verus!
