//! Memsolve generates ROM memory layouts for microcontrollers and other embedded devices.
//!
//! Microcontrollers have limited flash (ROM) available, separated into pages. This flash can be
//! used for multiple purposes: a bootloader, data storage, multiple applications. The sections
//! of a layout state their requirements (a number of pages, a minimal size, a fixed address,
//! growing as large as possible) and the layout is resolved into addresses with a linear solver.
//!
//! - [`Memory`] is the primary object and represents the memory layout.
//! - [`chip::Chip`] describes the target of the layout: the flash size and its page size.
//! - [`section::Section`] describes the requirements on a single section.
use vstd::prelude::*;

pub mod bin;
pub mod chip;
pub mod esp;
pub mod layout;
pub mod finished;
pub mod linker;
pub mod placement;
pub mod problem;
pub mod resolve;
pub mod solver;
pub mod section;

use crate::bin::{Bin, MemoryBin};
use crate::chip::{Chip, PageSize};
use crate::layout::{Layout, ResolvedLayout};
use crate::section::{placement_of, Placement, ResolvedSection, Section, SectionError, SectionView};

verus! {

/// Memory layout description.
#[derive(Debug, Clone, PartialEq)]
pub struct Memory<MetaData: Clone> {
    pub(crate) chip: Chip,
    pub(crate) layout: Layout<MetaData>,
}

/// Memory layout generation errors.
#[derive(Debug, Clone, Copy, PartialEq, Eq, Structural)]
pub enum MemoryError {
    /// Multiple sections are marked as bootable.
    MultipleBootable,
    /// Insufficient memory is available to fit sections.
    MemoryTooSmall,
    /// Memory layout can not be resolved.
    UnresolvableLayout,
    /// Address is too large to represent in the solver.
    AddressTooLarge,
    /// Time budget exceeded for solver.
    TimeExceeded,
    /// Section related error.
    SectionError(SectionError),
}

/// The placement of a fully defined section, if it resolves on a chip starting at `start`
/// with pages of `page_size` bytes.
pub open spec fn fixed_placement(s: SectionView, start: u64, page_size: u64) -> Option<Placement> {
    if !s.is_resolved() {
        None
    } else {
        match (s.start_address(start), s.page_and_size(start, page_size)) {
            (Ok(a), Ok((p, z))) => Some(
                Placement {
                    name: s.name,
                    pages: p,
                    size: z,
                    address: a,
                    linker_name: s.effective_linker_name(),
                },
            ),
            _ => None,
        }
    }
}

/// The placements of the fully defined sections, in layout order.
pub open spec fn fixed_placements(v: Seq<SectionView>, start: u64, page_size: u64) -> Seq<
    Placement,
>
    decreases v.len(),
{
    if v.len() == 0 {
        Seq::empty()
    } else {
        let prev = fixed_placements(v.drop_last(), start, page_size);
        match fixed_placement(v.last(), start, page_size) {
            Some(p) => prev.push(p),
            None => prev,
        }
    }
}

/// The byte interval `[address, address + size)` of a placement.
pub open spec fn interval(p: Placement) -> (u64, u64) {
    (p.address, (p.address + p.size) as u64)
}

/// Position at which an interval starting at `key` goes in `s`: after every trailing
/// interval starting at or before it.
pub open spec fn upper_pos(s: Seq<(u64, u64)>, key: u64) -> int
    decreases s.len(),
{
    if s.len() == 0 {
        0
    } else if s.last().0 <= key {
        s.len() as int
    } else {
        upper_pos(s.drop_last(), key)
    }
}

/// `s` sorted by start, keeping the order of equal starts.
pub open spec fn sort_by_start(s: Seq<(u64, u64)>) -> Seq<(u64, u64)>
    decreases s.len(),
{
    if s.len() == 0 {
        s
    } else {
        let sorted = sort_by_start(s.drop_last());
        sorted.insert(upper_pos(sorted, s.last().0), s.last())
    }
}

/// The sorted fixed intervals with an empty interval added at the chip start and at the chip
/// end where no fixed section begins or ends there.
pub open spec fn bounded_chain(sorted: Seq<(u64, u64)>, start: u64, end: u64) -> Seq<(u64, u64)> {
    let a = if sorted.len() == 0 || sorted[0].0 != start {
        seq![(start, start)] + sorted
    } else {
        sorted
    };
    if a.last().1 != end {
        a.push((end, end))
    } else {
        a
    }
}

/// Every interval of the chain ends before the next one starts.
pub open spec fn chain_ordered(g: Seq<(u64, u64)>) -> bool {
    forall|i: int| 0 <= i < g.len() - 1 ==> #[trigger] g[i].1 <= g[i + 1].0
}

/// The free regions between consecutive intervals of the chain.
pub open spec fn gaps(g: Seq<(u64, u64)>, page_size: u64) -> Seq<MemoryBin>
    decreases g.len(),
{
    if g.len() < 2 {
        Seq::empty()
    } else {
        let prev = gaps(g.drop_last(), page_size);
        let a = g[g.len() - 2];
        let b = g.last();
        if b.0 == a.1 {
            prev
        } else {
            prev.push(MemoryBin { start_address: a.1, end_address: b.0, page_size })
        }
    }
}

impl<MetaData: Clone> Memory<MetaData> {
    /// The chip of this memory.
    pub open(crate) spec fn spec_chip(&self) -> Chip {
        self.chip
    }

    /// The requested layout of this memory.
    pub open(crate) spec fn spec_layout(&self) -> Layout<MetaData> {
        self.layout
    }

    /// Start address of the chip.
    pub open(crate) spec fn start(&self) -> u64 {
        self.chip.spec_start_address()
    }

    /// Page size of the chip.
    pub open(crate) spec fn page(&self) -> u64 {
        self.chip.uniform_page_size()
    }

    /// The placements of the fully defined sections, in layout order.
    pub open(crate) spec fn fixed(&self) -> Seq<Placement> {
        fixed_placements(self.layout@, self.start(), self.page())
    }

    /// Every fully defined section ends within the address space.
    pub open(crate) spec fn fixed_ends_fit(&self) -> bool {
        forall|i: int|
            0 <= i < self.fixed().len() ==> #[trigger] self.fixed()[i].address
                + self.fixed()[i].size <= u64::MAX
    }

    /// The fixed intervals sorted by start address.
    pub open(crate) spec fn sorted_fixed(&self) -> Seq<(u64, u64)> {
        sort_by_start(self.fixed().map_values(|p: Placement| interval(p)))
    }

    /// The fixed intervals framed by the chip start and end.
    pub open(crate) spec fn chain(&self) -> Seq<(u64, u64)> {
        bounded_chain(
            self.sorted_fixed(),
            self.start(),
            self.chip.spec_end_address() as u64,
        )
    }

    /// The fully defined sections ask for page counts whose bytes fit in `u64`.
    pub open(crate) spec fn fixed_pages_fit(&self) -> bool {
        forall|i: int|
            0 <= i < self.layout@.len() && (#[trigger] self.layout@[i]).is_resolved()
                ==> self.layout@[i].page_bytes_fit(self.page())
    }

    /// The fixed sections can be framed by the chip: the chip has uniform non-empty pages and
    /// ends within the address space, and every fixed section resolves and ends within the
    /// address space.
    pub open(crate) spec fn chain_computable(&self) -> bool {
        &&& self.chip.has_uniform_pages()
        &&& self.chip.end_fits()
        &&& self.fixed_pages_fit()
        &&& self.fixed_ends_fit()
    }

    /// The chip and the fixed sections can be framed into free regions: the fixed sections, in
    /// address order, lie within the chip without overlapping.
    pub open(crate) spec fn bins_computable(&self) -> bool {
        &&& self.chain_computable()
        &&& chain_ordered(self.chain())
    }

    /// The free regions of this memory.
    pub open(crate) spec fn spec_bins(&self) -> Seq<MemoryBin> {
        gaps(self.chain(), self.page())
    }

    /// Create a new memory.
    pub fn new(chip: Chip) -> (r: Self)
        ensures
            r.spec_chip() == chip,
            r.spec_layout().spec_sections() == Seq::<Section<MetaData>>::empty(),
    {
        Memory { chip, layout: Layout::empty() }
    }

    /// Set the current layout used by the memory.
    pub fn set_layout(&mut self, layout: Layout<MetaData>)
        ensures
            final(self).spec_chip() == old(self).spec_chip(),
            final(self).spec_layout() == layout,
    {
        self.layout = layout;
    }

    /// Add a memory section to the layout in the memory.
    pub fn add_section(&mut self, section: Section<MetaData>)
        ensures
            final(self).spec_chip() == old(self).spec_chip(),
            final(self).spec_layout().spec_sections() == old(
                self,
            ).spec_layout().spec_sections().push(section),
    {
        self.layout.push(section);
    }

    /// Returns a mutable reference to the layout.
    pub fn layout_mut(&mut self) -> (r: &mut Layout<MetaData>)
        ensures
            *r == old(self).spec_layout(),
            final(self).spec_layout() == *final(r),
            final(self).spec_chip() == old(self).spec_chip(),
    {
        &mut self.layout
    }

    /// Returns a reference to the layout.
    pub fn layout(&self) -> (r: &Layout<MetaData>)
        ensures
            *r == self.spec_layout(),
    {
        &self.layout
    }

    /// Returns a reference to the chip.
    pub fn chip(&self) -> (r: &Chip)
        ensures
            *r == self.spec_chip(),
    {
        &self.chip
    }

    /// Returns true if the memory layout is fully defined.
    pub fn is_resolved(&self) -> (r: bool)
        ensures
            r == forall|i: int|
                0 <= i < self.spec_layout()@.len() ==> (#[trigger] self.spec_layout()@[i]).is_resolved(),
    {
        let n = self.layout.len();
        for i in 0..n
            invariant
                n == self.layout@.len(),
                forall|j: int| 0 <= j < i ==> (#[trigger] self.layout@[j]).is_resolved(),
        {
            proof {
                assert(self.layout@[i as int] == self.layout.sections@[i as int]@);
            }
            if !self.layout.sections[i].is_resolved() {
                assert(!self.spec_layout()@[i as int].is_resolved());
                return false;
            }
        }
        true
    }

    /// The fully defined sections, resolved on the chip, in layout order.
    pub fn resolved_sections(&self) -> (r: Vec<ResolvedSection<MetaData>>)
        requires
            self.spec_chip().has_uniform_pages(),
            self.fixed_pages_fit(),
        ensures
            r@.map_values(|x: ResolvedSection<MetaData>| placement_of(x)) == self.fixed(),
            forall|k: int|
                0 <= k < r@.len() ==> #[trigger] crate::resolve::resolved_from(
                    self.spec_layout().spec_sections(),
                    r@[k],
                ),
    {
        let mut out: Vec<ResolvedSection<MetaData>> = Vec::new();
        let n = self.layout.len();
        for i in 0..n
            invariant
                n == self.layout@.len(),
                self.chip.has_uniform_pages(),
                self.fixed_pages_fit(),
                out@.map_values(|x: ResolvedSection<MetaData>| placement_of(x))
                    == fixed_placements(self.layout@.take(i as int), self.start(), self.page()),
                forall|k: int|
                    0 <= k < out@.len() ==> #[trigger] crate::resolve::resolved_from(
                        self.spec_layout().spec_sections(),
                        out@[k],
                    ),
        {
            let ghost v = self.layout@[i as int];
            proof {
                assert(self.layout@.take(i + 1).drop_last() =~= self.layout@.take(i as int));
                assert(self.layout@.take(i + 1).last() == v);
            }
            proof {
                assert(self.spec_layout()@[i as int] == self.layout.sections@[i as int]@);
            }
            let res = self.layout.sections[i].as_resolved(&self.chip);
            match res {
                Ok(rs) => {
                    let ghost before = out@;
                    out.push(rs);
                    proof {
                        assert(self.spec_layout().spec_sections()[i as int] == self.layout.sections@[i as int]);
                        assert(crate::resolve::resolved_from(self.spec_layout().spec_sections(), rs));
                        assert forall|k: int| 0 <= k < out@.len() implies #[trigger] crate::resolve::resolved_from(
                            self.spec_layout().spec_sections(),
                            out@[k],
                        ) by {
                            if k < before.len() {
                                assert(out@[k] == before[k]);
                            }
                        }
                        assert(out@.map_values(|x: ResolvedSection<MetaData>| placement_of(x))
                            =~= fixed_placements(
                            self.layout@.take(i as int),
                            self.start(),
                            self.page(),
                        ).push(fixed_placement(v, self.start(), self.page()).unwrap()));
                    }
                },
                Err(_) => {},
            }
        }
        proof {
            assert(self.layout@.take(n as int) =~= self.layout@);
        }
        out
    }

    /// The intervals of the fully defined sections, in layout order.
    fn fixed_intervals(&self) -> (r: Vec<(u64, u64)>)
        requires
            self.chain_computable(),
        ensures
            r@ == self.fixed().map_values(|p: Placement| interval(p)),
    {
        let resolved = self.resolved_sections();
        let mut fixed: Vec<(u64, u64)> = Vec::new();
        let n = resolved.len();
        for i in 0..n
            invariant
                n == resolved@.len(),
                self.fixed_ends_fit(),
                resolved@.map_values(|x: ResolvedSection<MetaData>| placement_of(x))
                    == self.fixed(),
                fixed@ == self.fixed().take(i as int).map_values(|p: Placement| interval(p)),
        {
            proof {
                assert(self.fixed()[i as int] == placement_of(resolved@[i as int]));
                assert(self.fixed()[i as int].address + self.fixed()[i as int].size <= u64::MAX);
            }
            let start = resolved[i].address;
            let end = resolved[i].address + resolved[i].size;
            fixed.push((start, end));
            proof {
                assert(self.fixed().take(i + 1).map_values(|p: Placement| interval(p))
                    =~= self.fixed().take(i as int).map_values(|p: Placement| interval(p)).push(
                    interval(self.fixed()[i as int]),
                ));
            }
        }
        proof {
            assert(self.fixed().take(n as int) =~= self.fixed());
        }
        fixed
    }

    /// The fixed intervals in address order, framed by the chip start and end.
    fn fixed_chain(&self) -> (r: Vec<(u64, u64)>)
        requires
            self.chain_computable(),
        ensures
            r@ == self.chain(),
    {
        let mut fixed = sort_intervals(self.fixed_intervals());
        let start_address = self.chip.start_address();
        if fixed.len() == 0 || fixed[0].0 != start_address {
            fixed.insert(0, (start_address, start_address));
        }
        let end = self.chip.end_exclusive();
        if fixed[fixed.len() - 1].1 != end {
            fixed.push((end, end));
        }
        proof {
            assert(fixed@ =~= self.chain());
        }
        fixed
    }

    /// The free regions of flash between the fixed sections, when the chip and the fixed
    /// sections can be framed into free regions.
    pub fn checked_memory_bins(&self) -> (r: Option<Bin>)
        ensures
            r is Some <==> self.bins_computable(),
            r matches Some(b) ==> b@ == self.spec_bins(),
    {
        let page_size = match &self.chip.page_size {
            PageSize::Uniform(p) => *p,
            PageSize::Heterogeneous(_) => {
                return None;
            },
        };
        if page_size == 0 {
            return None;
        }
        if self.chip.start_address.checked_add(self.chip.total_size).is_none() {
            return None;
        }
        let n = self.layout.len();
        for i in 0..n
            invariant
                n == self.layout@.len(),
                page_size == self.page(),
                forall|j: int|
                    0 <= j < i && (#[trigger] self.layout@[j]).is_resolved()
                        ==> self.layout@[j].page_bytes_fit(self.page()),
        {
            let s = &self.layout.sections[i];
            proof {
                assert(self.layout@[i as int] == s@);
            }
            if s.is_resolved() {
                if let Some(p) = s.pages() {
                    if p.checked_mul(page_size).is_none() {
                        return None;
                    }
                }
            }
        }
        let resolved = self.resolved_sections();
        let m = resolved.len();
        for i in 0..m
            invariant
                m == resolved@.len(),
                resolved@.map_values(|x: ResolvedSection<MetaData>| placement_of(x))
                    == self.fixed(),
                forall|j: int|
                    0 <= j < i ==> #[trigger] self.fixed()[j].address + self.fixed()[j].size
                        <= u64::MAX,
        {
            proof {
                assert(self.fixed()[i as int] == placement_of(resolved@[i as int]));
            }
            if resolved[i].address.checked_add(resolved[i].size).is_none() {
                assert(!(self.fixed()[i as int].address + self.fixed()[i as int].size <= u64::MAX));
                return None;
            }
        }
        let chain = self.fixed_chain();
        let len = chain.len();
        if len > 0 {
            for k in 1..len
                invariant
                    len == chain@.len(),
                    chain@ == self.chain(),
                    forall|i: int| 0 <= i < k - 1 ==> #[trigger] chain@[i].1 <= chain@[i + 1].0,
            {
                if chain[k - 1].1 > chain[k].0 {
                    assert(!(chain@[k - 1].1 <= chain@[k - 1 + 1].0));
                    return None;
                }
            }
        }
        Some(Bin::new(gap_bins(&chain, page_size)))
    }

    /// The free regions of flash between the fixed sections, in address order.
    pub fn memory_bins(&self) -> (r: Bin)
        requires
            self.bins_computable(),
        ensures
            r@ == self.spec_bins(),
    {
        let fixed = self.fixed_chain();
        let page_size = self.chip.page_size_at(self.chip.start_address());
        Bin::new(gap_bins(&fixed, page_size))
    }
}

/// The sections `l` after each section of `added` is pushed, in order, as
/// [`Memory::add_section`] does to the layout of a memory.
pub open spec fn pushed<MetaData: Clone>(
    l: Seq<Section<MetaData>>,
    added: Seq<Section<MetaData>>,
) -> Seq<Section<MetaData>>
    decreases added.len(),
{
    if added.len() == 0 {
        l
    } else {
        pushed(l, added.drop_last()).push(added.last())
    }
}

/// Adding sections one by one to a memory whose layout was set to `l` leaves `l` followed by
/// the added sections, in the order they were added.
pub proof fn lemma_added_sections<MetaData: Clone>(
    l: Seq<Section<MetaData>>,
    added: Seq<Section<MetaData>>,
)
    ensures
        pushed(l, added) == l + added,
    decreases added.len(),
{
    if added.len() > 0 {
        lemma_added_sections(l, added.drop_last());
        assert(l + added =~= (l + added.drop_last()).push(added.last()));
    }
}

/// The free regions between consecutive intervals of `fixed`.
fn gap_bins(fixed: &Vec<(u64, u64)>, page_size: u64) -> (r: Vec<MemoryBin>)
    requires
        chain_ordered(fixed@),
    ensures
        r@ == gaps(fixed@, page_size),
{
    let mut bins: Vec<MemoryBin> = Vec::new();
    let len = fixed.len();
    if len == 0 {
        return bins;
    }
    for k in 1..len
        invariant
            len == fixed@.len(),
            chain_ordered(fixed@),
            bins@ == gaps(fixed@.take(k as int), page_size),
    {
        let s1 = fixed[k - 1];
        let s2 = fixed[k];
        proof {
            assert(fixed@[k - 1].1 <= fixed@[k - 1 + 1].0);
            assert(fixed@.take(k + 1).drop_last() =~= fixed@.take(k as int));
        }
        let space_between = s2.0 - s1.1;
        if space_between != 0 {
            bins.push(MemoryBin { start_address: s1.1, end_address: s2.0, page_size });
        }
    }
    proof {
        assert(fixed@.take(len as int) =~= fixed@);
    }
    bins
}

/// The free regions between the intervals of an ordered chain are non-empty and have pages of
/// `page_size` bytes.
pub proof fn lemma_gaps_wf(g: Seq<(u64, u64)>, page_size: u64)
    requires
        chain_ordered(g),
        page_size > 0,
    ensures
        forall|i: int|
            0 <= i < gaps(g, page_size).len() ==> (#[trigger] gaps(g, page_size)[i]).wf()
                && gaps(g, page_size)[i].start_address < gaps(g, page_size)[i].end_address,
    decreases g.len(),
{
    if g.len() >= 2 {
        let d = g.drop_last();
        assert(chain_ordered(d)) by {
            assert forall|i: int| 0 <= i < d.len() - 1 implies #[trigger] d[i].1 <= d[i + 1].0 by {
                assert(g[i].1 <= g[i + 1].0);
            }
        }
        lemma_gaps_wf(d, page_size);
        assert(g[g.len() - 2].1 <= g[g.len() - 2 + 1].0);
        let r = gaps(g, page_size);
        let prev = gaps(d, page_size);
        assert forall|i: int| 0 <= i < r.len() implies (#[trigger] r[i]).wf() && r[i].start_address
            < r[i].end_address by {
            if i < prev.len() {
                assert(r[i] == prev[i]);
            }
        }
    }
}

/// `s` sorted by start address, keeping the order of equal starts.
fn sort_intervals(s: Vec<(u64, u64)>) -> (r: Vec<(u64, u64)>)
    ensures
        r@ == sort_by_start(s@),
{
    let mut sorted: Vec<(u64, u64)> = Vec::new();
    let n = s.len();
    for i in 0..n
        invariant
            n == s@.len(),
            sorted@ == sort_by_start(s@.take(i as int)),
    {
        let x = s[i];
        let mut j = sorted.len();
        proof {
            assert(sorted@.take(j as int) =~= sorted@);
        }
        while j > 0 && sorted[j - 1].0 > x.0
            invariant
                j <= sorted@.len(),
                upper_pos(sorted@, x.0) == upper_pos(sorted@.take(j as int), x.0),
            decreases j,
        {
            proof {
                assert(sorted@.take(j as int).drop_last() =~= sorted@.take(j - 1));
            }
            j = j - 1;
        }
        proof {
            assert(upper_pos(sorted@.take(j as int), x.0) == j);
            assert(s@.take(i + 1).drop_last() =~= s@.take(i as int));
        }
        sorted.insert(j, x);
    }
    proof {
        assert(s@.take(n as int) =~= s@);
    }
    sorted
}

} // verus!
