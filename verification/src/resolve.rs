//! Resolving a memory layout into addresses.
//!
//! Resolution alternates between decisions, taken here, and two kinds of linear problems
//! handed to a solver. A [`Resolver`] holds the state between them: each call returns the next
//! [`ResolveRequest`], and the solver's answer to a problem goes back through
//! [`Resolver::step`].
use crate::bin::{total_pages, Bin, MemoryBin};
use crate::layout::{
    allocatable_positions, count_boot, maximizing_positions, section_views, total_needed_pages,
    total_section_pages,
    ResolvedLayout,
};
use crate::lemma_gaps_wf;
use crate::placement::{
    all_options, chosen, groups_of, lemma_all_options_wf, lemma_chosen, lemma_groups_sound, option_placement, chosen_placements, extract_placements, groups_view, model_of, placement_problem, placement_spec,
    AddressGroup, AddressOption, PlacementModel,
};
use crate::problem::{LinearProblem, LpFailure, ProblemView, SolveReport, SolvedValue};
use crate::section::{placement_of, Placement, ResolvedSection, Section, SectionView};
use crate::solver::{
    free_problem, free_problem_spec, free_readout, free_readout_spec, BuildFailure, SolverError,
};
use crate::{Memory, MemoryError};
use vstd::prelude::*;

verus! {

/// The error of the memory layout for an error of the solver stage.
pub open spec fn memory_error_of(e: SolverError) -> MemoryError {
    match e {
        SolverError::Solver(_) => MemoryError::UnresolvableLayout,
        SolverError::TooManyFlashPages => MemoryError::AddressTooLarge,
        SolverError::ConversionError => MemoryError::AddressTooLarge,
        SolverError::NoAllocationRegions => MemoryError::MemoryTooSmall,
        SolverError::SectionError(s) => MemoryError::SectionError(s),
        SolverError::TimeExceeded => MemoryError::TimeExceeded,
    }
}

impl MemoryError {
    /// The error of the memory layout for an error of the solver stage.
    pub fn from_solver(e: SolverError) -> (r: MemoryError)
        ensures
            r == memory_error_of(e),
    {
        match e {
            SolverError::Solver(_) => MemoryError::UnresolvableLayout,
            SolverError::TooManyFlashPages | SolverError::ConversionError => {
                MemoryError::AddressTooLarge
            },
            SolverError::NoAllocationRegions => MemoryError::MemoryTooSmall,
            SolverError::SectionError(s) => MemoryError::SectionError(s),
            SolverError::TimeExceeded => MemoryError::TimeExceeded,
        }
    }
}

impl From<SolverError> for MemoryError {
    fn from(value: SolverError) -> (r: MemoryError) {
        MemoryError::from_solver(value)
    }
}

impl vstd::std_specs::convert::FromSpecImpl<SolverError> for MemoryError {
    open spec fn obeys_from_spec() -> bool {
        true
    }

    open spec fn from_spec(v: SolverError) -> MemoryError {
        memory_error_of(v)
    }
}

/// What the resolution needs next.
#[derive(Debug)]
pub enum ResolveRequest<MetaData: Clone> {
    /// Solve this problem, which shares the free pages among the maximized sections, and hand
    /// the report to [`Resolver::step`].
    SizeMaximized(LinearProblem),
    /// Solve this problem, which places the sections in the free regions, and hand the report
    /// to [`Resolver::step`].
    Place(LinearProblem),
    /// The resolution is over.
    Finished(Result<ResolvedLayout<MetaData>, MemoryError>),
    /// The resolution cannot go on: an integer operation on the inputs leaves its range, the
    /// chip's pages are not of one non-zero size, or a report does not answer the problem.
    Abort,
}

/// The content of a request.
pub enum RequestView {
    /// Share the free pages.
    SizeMaximized(ProblemView),
    /// Place the sections.
    Place(ProblemView),
    /// The resolution is over with the placements, in order, or an error.
    Finished(Result<Seq<Placement>, MemoryError>),
    /// The resolution cannot go on.
    Abort,
}

/// The content of a request.
pub open spec fn request_view<MetaData: Clone>(r: ResolveRequest<MetaData>) -> RequestView {
    match r {
        ResolveRequest::SizeMaximized(p) => RequestView::SizeMaximized(p@),
        ResolveRequest::Place(p) => RequestView::Place(p@),
        ResolveRequest::Finished(Ok(l)) => RequestView::Finished(
            Ok(l@.map_values(|s: ResolvedSection<MetaData>| placement_of(s))),
        ),
        ResolveRequest::Finished(Err(e)) => RequestView::Finished(Err(e)),
        ResolveRequest::Abort => RequestView::Abort,
    }
}

/// The content of a solver report.
pub enum ReportView {
    /// One value per variable.
    Solved(Seq<SolvedValue>),
    /// The time budget ran out.
    Interrupted,
    /// The solver failed.
    Failed(LpFailure),
}

/// The content of a solver report.
pub open spec fn report_view(r: SolveReport) -> ReportView {
    match r {
        SolveReport::Solved(v) => ReportView::Solved(v@),
        SolveReport::Interrupted => ReportView::Interrupted,
        SolveReport::Failed(f) => ReportView::Failed(f),
    }
}

/// Which answer the resolver waits for.
#[derive(Debug, Clone, Copy, PartialEq, Eq, Structural)]
pub enum Stage {
    /// The report on the problem sharing the free pages.
    AwaitingSizes,
    /// The report on the placement problem.
    AwaitingPlacement,
    /// Nothing: the resolution is over.
    Done,
}

/// The state of a resolution.
pub struct ResolverView {
    /// Which answer the resolver waits for.
    pub stage: Stage,
    /// The free regions.
    pub bins: Seq<MemoryBin>,
    /// The sections to maximize.
    pub maximized: Seq<SectionView>,
    /// The sections placed at the size they state.
    pub allocatable: Seq<SectionView>,
    /// The placements of the fully defined sections.
    pub fixed: Seq<Placement>,
    /// The free pages shared in the current round.
    pub free_pages: u64,
    /// The free pages of the next round, should placement be infeasible.
    pub next_free_pages: u64,
    /// The sections being placed.
    pub placing: Seq<SectionView>,
    /// The options of the placement problem.
    pub options: Seq<AddressOption>,
    /// The options of the placement problem grouped by address.
    pub groups: Seq<(u64, Seq<usize>)>,
}

/// Position at which a placement at `address` goes in `s`: after every trailing placement at
/// or before it.
pub open spec fn placement_pos(s: Seq<Placement>, address: u64) -> int
    decreases s.len(),
{
    if s.len() == 0 {
        0
    } else if s.last().address <= address {
        s.len() as int
    } else {
        placement_pos(s.drop_last(), address)
    }
}

/// `s` sorted by address, keeping the order of equal addresses.
pub open spec fn sort_by_address(s: Seq<Placement>) -> Seq<Placement>
    decreases s.len(),
{
    if s.len() == 0 {
        s
    } else {
        let sorted = sort_by_address(s.drop_last());
        sorted.insert(placement_pos(sorted, s.last().address), s.last())
    }
}

/// A round of resolution with `st.free_pages` free pages: too few pages for the maximized
/// sections ends it, else the problem sharing them is asked for.
pub open spec fn round_spec(st: ResolverView) -> (ResolverView, RequestView) {
    if st.free_pages == 0 && st.maximized.len() > 0 {
        (
            ResolverView { stage: Stage::Done, ..st },
            RequestView::Finished(Err(MemoryError::UnresolvableLayout)),
        )
    } else {
        match free_problem_spec(st.maximized, st.free_pages) {
            Err(BuildFailure::Overflow) => (ResolverView { stage: Stage::Done, ..st }, RequestView::Abort),
            Err(BuildFailure::Rejected(_)) => (
                ResolverView { stage: Stage::Done, ..st },
                RequestView::Finished(Err(MemoryError::UnresolvableLayout)),
            ),
            Ok(p) => (ResolverView { stage: Stage::AwaitingSizes, ..st }, RequestView::SizeMaximized(p)),
        }
    }
}

/// The state of a resolution that has not started.
pub open spec fn idle_state() -> ResolverView {
    ResolverView {
        stage: Stage::Done,
        bins: Seq::empty(),
        maximized: Seq::empty(),
        allocatable: Seq::empty(),
        fixed: Seq::empty(),
        free_pages: 0,
        next_free_pages: 0,
        placing: Seq::empty(),
        options: Seq::empty(),
        groups: Seq::empty(),
    }
}

/// The sections of `v` at the positions `ps`.
pub open spec fn at_positions(v: Seq<SectionView>, ps: Seq<usize>) -> Seq<SectionView> {
    ps.map_values(|i: usize| v[i as int])
}

/// The start of a resolution: more than one boot section is refused; the free regions are
/// framed by the fixed sections; sections placed at the size they state that need more pages
/// than the regions hold (each the larger of its pages and the pages holding its byte size)
/// are refused; the first round shares the pages left over.
pub open spec fn start_spec<MetaData: Clone>(mem: Memory<MetaData>) -> (ResolverView, RequestView) {
    let v = mem.spec_layout()@;
    if count_boot(v) > 1 {
        (idle_state(), RequestView::Finished(Err(MemoryError::MultipleBootable)))
    } else if !mem.bins_computable() {
        (idle_state(), RequestView::Abort)
    } else {
        let bins = mem.spec_bins();
        let bin_pages = total_pages(bins);
        let section_pages = total_needed_pages(v, mem.page());
        if bin_pages > u64::MAX || section_pages > u64::MAX {
            (idle_state(), RequestView::Abort)
        } else if section_pages > bin_pages {
            (idle_state(), RequestView::Finished(Err(MemoryError::MemoryTooSmall)))
        } else {
            round_spec(
                ResolverView {
                    bins,
                    maximized: at_positions(v, maximizing_positions(v)),
                    allocatable: at_positions(v, allocatable_positions(v)),
                    fixed: mem.fixed(),
                    free_pages: (bin_pages - section_pages) as u64,
                    ..idle_state()
                },
            )
        }
    }
}

/// The next step of a resolution in state `st` on the solver's report.
///
/// On the shared pages: the maximized sections take the pages given to them and, with the
/// other sections to place, the placement problem is asked for; the next round, should it be
/// infeasible, has one page less than those given out. On the placement: the placed sections
/// and the fixed ones, in address order, end the resolution; an infeasible placement starts
/// the next round when there are maximized sections to shrink, and is unresolvable otherwise.
pub open spec fn step_spec(st: ResolverView, report: ReportView) -> (ResolverView, RequestView) {
    let done = ResolverView { stage: Stage::Done, ..st };
    match st.stage {
        Stage::Done => (done, RequestView::Abort),
        Stage::AwaitingSizes => match report {
            ReportView::Solved(values) => if values.len() != st.maximized.len() {
                (done, RequestView::Abort)
            } else {
                match free_readout_spec(st.maximized, values) {
                    Err(_) => (done, RequestView::Finished(Err(MemoryError::UnresolvableLayout))),
                    Ok(maxed) => if total_section_pages(maxed) > u64::MAX {
                        (done, RequestView::Abort)
                    } else {
                        let assigned = total_section_pages(maxed);
                        let next = if assigned > 0 {
                            assigned - 1
                        } else {
                            0
                        };
                        let placing = maxed + st.allocatable;
                        match placement_spec(placing, st.bins) {
                            Err(BuildFailure::Overflow) => (done, RequestView::Abort),
                            Err(BuildFailure::Rejected(e)) => (
                                done,
                                RequestView::Finished(Err(memory_error_of(e))),
                            ),
                            Ok(p) => {
                                let options = all_options(placing, st.bins)->Ok_0;
                                (
                                    ResolverView {
                                        stage: Stage::AwaitingPlacement,
                                        next_free_pages: next as u64,
                                        placing,
                                        options,
                                        groups: groups_of(options),
                                        ..st
                                    },
                                    RequestView::Place(p),
                                )
                            },
                        }
                    },
                }
            },
            _ => (done, RequestView::Finished(Err(MemoryError::UnresolvableLayout))),
        },
        Stage::AwaitingPlacement => match report {
            ReportView::Solved(values) => if values.len() != st.options.len() {
                (done, RequestView::Abort)
            } else {
                (
                    done,
                    RequestView::Finished(
                        Ok(
                            sort_by_address(
                                chosen_placements(st.placing, st.options, st.groups, values)
                                    + st.fixed,
                            ),
                        ),
                    ),
                )
            },
            ReportView::Interrupted => (done, RequestView::Finished(Err(MemoryError::TimeExceeded))),
            ReportView::Failed(LpFailure::Infeasible) => if st.maximized.len() == 0 {
                (done, RequestView::Finished(Err(MemoryError::UnresolvableLayout)))
            } else {
                round_spec(ResolverView { free_pages: st.next_free_pages, ..st })
            },
            ReportView::Failed(_) => (
                done,
                RequestView::Finished(Err(MemoryError::UnresolvableLayout)),
            ),
        },
    }
}

/// The resolver reached the state and request that `expected` gives: the same request and
/// stage, and the same state while the resolution goes on.
pub open spec fn reached(st: ResolverView, req: RequestView, expected: (ResolverView, RequestView)) -> bool {
    &&& req == expected.1
    &&& st.stage == expected.0.stage
    &&& expected.0.stage != Stage::Done ==> st == expected.0
}

/// The state of a memory layout resolution.
pub struct Resolver<MetaData: Clone> {
    pub(crate) stage: Stage,
    pub(crate) bins: Bin,
    pub(crate) maximized: Vec<Section<MetaData>>,
    pub(crate) allocatable: Vec<Section<MetaData>>,
    pub(crate) fixed: Vec<ResolvedSection<MetaData>>,
    pub(crate) free_pages: u64,
    pub(crate) next_free_pages: u64,
    pub(crate) placing: Vec<Section<MetaData>>,
    pub(crate) options: Vec<AddressOption>,
    pub(crate) groups: Vec<AddressGroup>,
}

impl<MetaData: Clone> Resolver<MetaData> {
    /// The state of this resolution.
    pub open(crate) spec fn view(&self) -> ResolverView {
        ResolverView {
            stage: self.stage,
            bins: self.bins@,
            maximized: section_views(self.maximized@),
            allocatable: section_views(self.allocatable@),
            fixed: self.fixed@.map_values(|x: ResolvedSection<MetaData>| placement_of(x)),
            free_pages: self.free_pages,
            next_free_pages: self.next_free_pages,
            placing: section_views(self.placing@),
            options: self.options@,
            groups: groups_view(self.groups@),
        }
    }

    /// The sections to maximize, as held.
    pub open(crate) spec fn spec_maximized(&self) -> Seq<Section<MetaData>> {
        self.maximized@
    }

    /// The sections placed at the size they state, as held.
    pub open(crate) spec fn spec_allocatable(&self) -> Seq<Section<MetaData>> {
        self.allocatable@
    }

    /// The sections being placed, as held.
    pub open(crate) spec fn spec_placing(&self) -> Seq<Section<MetaData>> {
        self.placing@
    }

    /// The fixed sections, resolved, as held.
    pub open(crate) spec fn spec_fixed(&self) -> Seq<ResolvedSection<MetaData>> {
        self.fixed@
    }

    /// The regions have pages, and a pending placement is the one built from the sections
    /// being placed.
    pub open(crate) spec fn wf(&self) -> bool {
        &&& forall|k: int| 0 <= k < self.bins@.len() ==> (#[trigger] self.bins@[k]).page_size > 0
        &&& self.stage == Stage::AwaitingPlacement ==> {
            &&& all_options(section_views(self.placing@), self.bins@) == Ok::<
                Seq<AddressOption>,
                BuildFailure,
            >(self.options@)
            &&& groups_view(self.groups@) == groups_of(self.options@)
        }
    }

    /// A resolution that has not started.
    fn idle() -> (r: Self)
        ensures
            r@ == idle_state(),
            r.wf(),
    {
        let r = Resolver {
            stage: Stage::Done,
            bins: Bin::new(Vec::new()),
            maximized: Vec::new(),
            allocatable: Vec::new(),
            fixed: Vec::new(),
            free_pages: 0,
            next_free_pages: 0,
            placing: Vec::new(),
            options: Vec::new(),
            groups: Vec::new(),
        };
        proof {
            assert(r@.maximized =~= Seq::<SectionView>::empty());
            assert(r@.allocatable =~= Seq::<SectionView>::empty());
            assert(r@.placing =~= Seq::<SectionView>::empty());
            assert(r@.fixed =~= Seq::<Placement>::empty());
            assert(r@.groups =~= Seq::<(u64, Seq<usize>)>::empty());
        }
        r
    }

    /// True when the resolution is over.
    pub fn is_done(&self) -> (r: bool)
        ensures
            r == (self@.stage == Stage::Done),
    {
        match self.stage {
            Stage::Done => true,
            _ => false,
        }
    }

    /// A round with the current free pages.
    fn round(&mut self) -> (r: ResolveRequest<MetaData>)
        requires
            old(self).wf(),
        ensures
            final(self).wf(),
            reached(final(self)@, request_view(r), round_spec(old(self)@)),
            final(self).spec_maximized() == old(self).spec_maximized(),
            final(self).spec_allocatable() == old(self).spec_allocatable(),
            final(self).spec_fixed() == old(self).spec_fixed(),
    {
        if self.free_pages == 0 && self.maximized.len() > 0 {
            self.stage = Stage::Done;
            return ResolveRequest::Finished(Err(MemoryError::UnresolvableLayout));
        }
        match free_problem(&self.maximized, self.free_pages) {
            Err(BuildFailure::Overflow) => {
                self.stage = Stage::Done;
                ResolveRequest::Abort
            },
            Err(BuildFailure::Rejected(_)) => {
                self.stage = Stage::Done;
                ResolveRequest::Finished(Err(MemoryError::UnresolvableLayout))
            },
            Ok(p) => {
                self.stage = Stage::AwaitingSizes;
                ResolveRequest::SizeMaximized(p)
            },
        }
    }

    /// Continues the resolution with the solver's report on the last problem asked for.
    pub fn step(&mut self, report: SolveReport) -> (r: ResolveRequest<MetaData>)
        requires
            old(self).wf(),
        ensures
            final(self).wf(),
            reached(final(self)@, request_view(r), step_spec(old(self)@, report_view(report))),
            final(self).spec_maximized() == old(self).spec_maximized(),
            final(self).spec_allocatable() == old(self).spec_allocatable(),
            final(self)@.stage != Stage::Done ==> final(self).spec_fixed() == old(self).spec_fixed(),
            old(self)@.stage == Stage::AwaitingSizes && final(self)@.stage
                == Stage::AwaitingPlacement ==> placing_cloned(
                old(self).spec_maximized(),
                old(self).spec_allocatable(),
                final(self).spec_placing(),
            ),
            r matches ResolveRequest::Finished(Ok(l)) ==> forall|k: int|
                0 <= k < l@.len() ==> #[trigger] carried(
                    old(self).spec_placing(),
                    old(self).spec_fixed(),
                    l@[k],
                ),
    {
        match self.stage {
            Stage::Done => ResolveRequest::Abort,
            Stage::AwaitingSizes => self.sizes_solved(report),
            Stage::AwaitingPlacement => self.placement_solved(report),
        }
    }

    /// The step on the report about the shared pages.
    fn sizes_solved(&mut self, report: SolveReport) -> (r: ResolveRequest<MetaData>)
        requires
            old(self).wf(),
            old(self)@.stage == Stage::AwaitingSizes,
        ensures
            final(self).wf(),
            reached(final(self)@, request_view(r), step_spec(old(self)@, report_view(report))),
            final(self).spec_maximized() == old(self).spec_maximized(),
            final(self).spec_allocatable() == old(self).spec_allocatable(),
            final(self)@.stage != Stage::Done ==> final(self).spec_fixed() == old(self).spec_fixed(),
            final(self)@.stage == Stage::AwaitingPlacement ==> placing_cloned(
                old(self).spec_maximized(),
                old(self).spec_allocatable(),
                final(self).spec_placing(),
            ),
            !(r is Finished && r->Finished_0 is Ok),
    {
        let values = match report {
            SolveReport::Solved(v) => v,
            _ => {
                self.stage = Stage::Done;
                return ResolveRequest::Finished(Err(MemoryError::UnresolvableLayout));
            },
        };
        if values.len() != self.maximized.len() {
            self.stage = Stage::Done;
            return ResolveRequest::Abort;
        }
        let maxed = match free_readout(&self.maximized, &values) {
            Err(_) => {
                self.stage = Stage::Done;
                return ResolveRequest::Finished(Err(MemoryError::UnresolvableLayout));
            },
            Ok(m) => m,
        };
        let assigned = match crate::layout::checked_page_total(&maxed) {
            None => {
                self.stage = Stage::Done;
                return ResolveRequest::Abort;
            },
            Some(a) => a,
        };
        let next = if assigned > 0 {
            assigned - 1
        } else {
            0
        };
        let placing = append_copies(maxed, &self.allocatable);
        match placement_problem(&placing, &self.bins) {
            Err(BuildFailure::Overflow) => {
                self.stage = Stage::Done;
                ResolveRequest::Abort
            },
            Err(BuildFailure::Rejected(e)) => {
                self.stage = Stage::Done;
                ResolveRequest::Finished(Err(MemoryError::from_solver(e)))
            },
            Ok(model) => {
                self.stage = Stage::AwaitingPlacement;
                self.next_free_pages = next;
                self.placing = placing;
                self.options = model.options;
                self.groups = model.groups;
                ResolveRequest::Place(model.problem)
            },
        }
    }

    /// The step on the report about the placement.
    fn placement_solved(&mut self, report: SolveReport) -> (r: ResolveRequest<MetaData>)
        requires
            old(self).wf(),
            old(self)@.stage == Stage::AwaitingPlacement,
        ensures
            final(self).wf(),
            reached(final(self)@, request_view(r), step_spec(old(self)@, report_view(report))),
            final(self).spec_maximized() == old(self).spec_maximized(),
            final(self).spec_allocatable() == old(self).spec_allocatable(),
            final(self)@.stage != Stage::Done ==> final(self).spec_fixed() == old(self).spec_fixed(),
            final(self)@.stage != Stage::AwaitingPlacement,
            r matches ResolveRequest::Finished(Ok(l)) ==> forall|k: int|
                0 <= k < l@.len() ==> #[trigger] carried(
                    old(self).spec_placing(),
                    old(self).spec_fixed(),
                    l@[k],
                ),
    {
        match report {
            SolveReport::Solved(values) => {
                if values.len() != self.options.len() {
                    self.stage = Stage::Done;
                    return ResolveRequest::Abort;
                }
                let np = self.placing.len();
                proof {
                    lemma_groups_sound(self.options@);
                    assert(section_views(self.placing@).len() == np);
                    lemma_all_options_wf(section_views(self.placing@), self.bins@);
                }
                let mut placed = extract_placements(&self.placing, &self.options, &self.groups, &values);
                let mut fixed: Vec<ResolvedSection<MetaData>> = Vec::new();
                std::mem::swap(&mut fixed, &mut self.fixed);
                let ghost a = placed@;
                let ghost b = fixed@;
                placed.append(&mut fixed);
                proof {
                    assert(placed@.map_values(|x: ResolvedSection<MetaData>| placement_of(x))
                        =~= a.map_values(|x: ResolvedSection<MetaData>| placement_of(x))
                        + b.map_values(|x: ResolvedSection<MetaData>| placement_of(x)));
                    let secs = section_views(self.placing@);
                    let opts = self.options@;
                    let g = groups_view(self.groups@);
                    let c = chosen(g, values@);
                    lemma_chosen(opts, g, values@, g.len() as int);
                    assert forall|q: int| 0 <= q < placed@.len() implies #[trigger] carried(
                        old(self).spec_placing(),
                        old(self).spec_fixed(),
                        placed@[q],
                    ) by {
                        if q < a.len() {
                            let k = c[q] as int;
                            assert(k < opts.len());
                            let sec = opts[k].section as int;
                            assert(sec < np);
                            assert(placed@[q] == a[q]);
                            assert(placement_of(a[q]) == a.map_values(
                                |x: ResolvedSection<MetaData>| placement_of(x),
                            )[q]);
                            assert(placement_of(a[q]) == option_placement(secs, opts[k]));
                            assert(secs[sec] == self.placing@[sec]@);
                            assert(self.placing@[sec]@.name == a[q].name@);
                        } else {
                            assert(placed@[q] == b[q - a.len()]);
                        }
                    }
                }
                self.stage = Stage::Done;
                let sorted = sort_resolved(placed);
                proof {
                    assert forall|k: int| 0 <= k < sorted@.len() implies #[trigger] carried(
                        old(self).spec_placing(),
                        old(self).spec_fixed(),
                        sorted@[k],
                    ) by {
                        assert(member_of(placed@, sorted@[k]));
                        let q = choose|q: int| 0 <= q < placed@.len() && placed@[q] == sorted@[k];
                        assert(carried(old(self).spec_placing(), old(self).spec_fixed(), placed@[q]));
                    }
                }
                ResolveRequest::Finished(Ok(ResolvedLayout::from_sections(sorted)))
            },
            SolveReport::Interrupted => {
                self.stage = Stage::Done;
                ResolveRequest::Finished(Err(MemoryError::TimeExceeded))
            },
            SolveReport::Failed(LpFailure::Infeasible) => {
                if self.maximized.len() == 0 {
                    self.stage = Stage::Done;
                    return ResolveRequest::Finished(Err(MemoryError::UnresolvableLayout));
                }
                self.free_pages = self.next_free_pages;
                self.round()
            },
            SolveReport::Failed(_) => {
                self.stage = Stage::Done;
                ResolveRequest::Finished(Err(MemoryError::UnresolvableLayout))
            },
        }
    }
}

/// Section `s` of a finished layout comes from the resolution: it is a placed section, named
/// after a section being placed and carrying a clone of its metadata, or one of the fixed
/// sections as held.
pub open spec fn carried<MetaData: Clone>(
    placing: Seq<Section<MetaData>>,
    fixed: Seq<ResolvedSection<MetaData>>,
    s: ResolvedSection<MetaData>,
) -> bool {
    ||| exists|i: int|
        0 <= i < placing.len() && placing[i]@.name == s.name@ && cloned(
            placing[i].spec_metadata(),
            s.metadata,
        )
    ||| member_of(fixed, s)
}

/// The sections being placed carry clones of the metadata of the maximized sections, then of
/// the sections placed at the size they state.
pub open spec fn placing_cloned<MetaData: Clone>(
    maximized: Seq<Section<MetaData>>,
    allocatable: Seq<Section<MetaData>>,
    placing: Seq<Section<MetaData>>,
) -> bool {
    &&& placing.len() == maximized.len() + allocatable.len()
    &&& forall|i: int|
        0 <= i < maximized.len() ==> cloned(
            maximized[i].spec_metadata(),
            (#[trigger] placing[i]).spec_metadata(),
        )
    &&& forall|j: int|
        0 <= j < allocatable.len() ==> cloned(
            allocatable[j].spec_metadata(),
            (#[trigger] placing[maximized.len() + j]).spec_metadata(),
        )
}

/// The sections `out` carry clones of the metadata of the sections of `sections` at the
/// positions `ps`.
pub open spec fn clones_at<MetaData: Clone>(
    sections: Seq<Section<MetaData>>,
    ps: Seq<usize>,
    out: Seq<Section<MetaData>>,
) -> bool {
    &&& out.len() == ps.len()
    &&& forall|t: int|
        0 <= t < out.len() ==> cloned(
            sections[ps[t] as int].spec_metadata(),
            (#[trigger] out[t]).spec_metadata(),
        )
}

/// The resolved section `r` is one of `sections`, resolved: it has its name and a clone of its
/// metadata.
pub open spec fn resolved_from<MetaData: Clone>(
    sections: Seq<Section<MetaData>>,
    r: ResolvedSection<MetaData>,
) -> bool {
    exists|i: int|
        0 <= i < sections.len() && sections[i]@.name == r.name@ && cloned(
            sections[i].spec_metadata(),
            r.metadata,
        )
}

/// `v` followed by copies of `others`.
fn append_copies<MetaData: Clone>(v: Vec<Section<MetaData>>, others: &Vec<Section<MetaData>>) -> (r:
    Vec<Section<MetaData>>)
    ensures
        section_views(r@) == section_views(v@) + section_views(others@),
        r@.len() == v@.len() + others@.len(),
        forall|i: int| 0 <= i < v@.len() ==> #[trigger] r@[i] == v@[i],
        forall|j: int|
            0 <= j < others@.len() ==> cloned(
                others@[j].spec_metadata(),
                (#[trigger] r@[v@.len() + j]).spec_metadata(),
            ),
{
    let mut out = v;
    let ghost start = out@;
    let n = others.len();
    for i in 0..n
        invariant
            n == others@.len(),
            section_views(out@) == section_views(start) + section_views(others@.take(i as int)),
            out@.len() == start.len() + i,
            forall|q: int| 0 <= q < start.len() ==> #[trigger] out@[q] == start[q],
            forall|j: int|
                0 <= j < i ==> cloned(
                    others@[j].spec_metadata(),
                    (#[trigger] out@[start.len() + j]).spec_metadata(),
                ),
    {
        let s = others[i].duplicate();
        let ghost before = out@;
        out.push(s);
        proof {
            assert forall|j: int| 0 <= j < i + 1 implies cloned(
                others@[j].spec_metadata(),
                (#[trigger] out@[start.len() + j]).spec_metadata(),
            ) by {
                if j < i {
                    assert(out@[start.len() + j] == before[start.len() + j]);
                }
            }
            assert forall|q: int| 0 <= q < start.len() implies #[trigger] out@[q] == start[q] by {
                assert(out@[q] == before[q]);
            }
            assert(others@.take(i + 1) =~= others@.take(i as int).push(others@[i as int]));
            assert(section_views(out@) =~= section_views(before).push(s@));
            assert(section_views(others@.take(i + 1)) =~= section_views(others@.take(i as int)).push(
                others@[i as int]@,
            ));
        }
    }
    proof {
        assert(others@.take(n as int) =~= others@);
    }
    out
}

/// Some entry of `v` is `x`.
pub open spec fn member_of<T>(v: Seq<T>, x: T) -> bool {
    exists|i: int| 0 <= i < v.len() && v[i] == x
}

/// `v` sorted by address, keeping the order of equal addresses.
fn sort_resolved<MetaData: Clone>(v: Vec<ResolvedSection<MetaData>>) -> (r: Vec<
    ResolvedSection<MetaData>,
>)
    ensures
        r@.map_values(|x: ResolvedSection<MetaData>| placement_of(x)) == sort_by_address(
            v@.map_values(|x: ResolvedSection<MetaData>| placement_of(x)),
        ),
        forall|k: int| 0 <= k < r@.len() ==> #[trigger] member_of(v@, r@[k]),
{
    let ghost pv = v@.map_values(|x: ResolvedSection<MetaData>| placement_of(x));
    let mut sorted: Vec<ResolvedSection<MetaData>> = Vec::new();
    let ghost orig = v@;
    let mut rest = v;
    let n = rest.len();
    proof {
        assert(rest@.skip(0) =~= rest@);
    }
    for i in 0..n
        invariant
            n == orig.len(),
            pv == orig.map_values(|x: ResolvedSection<MetaData>| placement_of(x)),
            rest@ == orig.skip(i as int),
            sorted@.map_values(|x: ResolvedSection<MetaData>| placement_of(x)) == sort_by_address(
                pv.take(i as int),
            ),
            forall|k: int| 0 <= k < sorted@.len() ==> #[trigger] member_of(orig, sorted@[k]),
    {
        let x = rest.remove(0);
        proof {
            assert(x == orig[i as int]);
            assert(pv.take(i + 1).drop_last() =~= pv.take(i as int));
            assert(pv.take(i + 1).last() == placement_of(x));
            assert(rest@ =~= orig.skip(i + 1));
        }
        let ghost sv = sorted@.map_values(|y: ResolvedSection<MetaData>| placement_of(y));
        let mut j = sorted.len();
        proof {
            assert(sv.take(j as int) =~= sv);
        }
        while j > 0 && sorted[j - 1].address > x.address
            invariant
                j <= sorted@.len(),
                forall|k: int| 0 <= k < sorted@.len() ==> #[trigger] member_of(orig, sorted@[k]),
                sv == sorted@.map_values(|y: ResolvedSection<MetaData>| placement_of(y)),
                placement_pos(sv, x.address) == placement_pos(sv.take(j as int), x.address),
            decreases j,
        {
            proof {
                assert(sv.take(j as int).drop_last() =~= sv.take(j - 1));
                assert(sv[j - 1] == placement_of(sorted@[j - 1]));
            }
            j = j - 1;
        }
        proof {
            if j > 0 {
                assert(sv[j - 1] == placement_of(sorted@[j - 1]));
            }
            assert(placement_pos(sv.take(j as int), x.address) == j);
        }
        let ghost before = sorted@;
        sorted.insert(j, x);
        proof {
            assert(member_of(orig, x)) by {
                assert(orig[i as int] == x);
            }
            assert forall|k: int| 0 <= k < sorted@.len() implies #[trigger] member_of(orig, sorted@[k]) by {
                if k < j {
                    assert(sorted@[k] == before[k]);
                } else if k > j {
                    assert(sorted@[k] == before[k - 1]);
                }
            }
            assert(sorted@.map_values(|y: ResolvedSection<MetaData>| placement_of(y)) =~= sv.insert(
                j as int,
                placement_of(x),
            ));
        }
    }
    proof {
        assert(pv.take(n as int) =~= pv);
    }
    sorted
}

impl<MetaData: Clone> Memory<MetaData> {
    /// The sections of the layout at the positions `ps`, copied.
    fn sections_at(&self, ps: &Vec<usize>) -> (r: Vec<Section<MetaData>>)
        requires
            forall|t: int| 0 <= t < ps@.len() ==> (#[trigger] ps@[t]) < self.spec_layout()@.len(),
        ensures
            section_views(r@) == at_positions(self.spec_layout()@, ps@),
            clones_at(self.spec_layout().spec_sections(), ps@, r@),
    {
        let ghost v = self.spec_layout()@;
        let mut out: Vec<Section<MetaData>> = Vec::new();
        let n = ps.len();
        for t in 0..n
            invariant
                n == ps@.len(),
                v == self.spec_layout()@,
                forall|u: int| 0 <= u < ps@.len() ==> (#[trigger] ps@[u]) < v.len(),
                section_views(out@) == at_positions(v, ps@.take(t as int)),
                out@.len() == t,
                forall|u: int|
                    0 <= u < t ==> cloned(
                        self.spec_layout().spec_sections()[ps@[u] as int].spec_metadata(),
                        (#[trigger] out@[u]).spec_metadata(),
                    ),
        {
            let i = ps[t];
            let s = self.layout.sections[i].duplicate();
            let ghost before = out@;
            out.push(s);
            proof {
                assert forall|u: int| 0 <= u < t + 1 implies cloned(
                    self.spec_layout().spec_sections()[ps@[u] as int].spec_metadata(),
                    (#[trigger] out@[u]).spec_metadata(),
                ) by {
                    if u < t {
                        assert(out@[u] == before[u]);
                    }
                }
                assert(v[i as int] == self.layout.sections@[i as int]@);
                assert(section_views(out@) =~= section_views(before).push(s@));
                assert(at_positions(v, ps@.take(t + 1)) =~= at_positions(v, ps@.take(t as int)).push(
                    v[i as int],
                ));
            }
        }
        proof {
            assert(ps@.take(n as int) =~= ps@);
        }
        out
    }

    /// Starts resolving the layout: returns the resolution and what it needs first.
    pub fn start_resolve(&self) -> (r: (Resolver<MetaData>, ResolveRequest<MetaData>))
        ensures
            r.0.wf(),
            reached(r.0@, request_view(r.1), start_spec(*self)),
            r.0@.stage != Stage::Done ==> {
                let sections = self.spec_layout().spec_sections();
                let v = self.spec_layout()@;
                &&& clones_at(sections, maximizing_positions(v), r.0.spec_maximized())
                &&& clones_at(sections, allocatable_positions(v), r.0.spec_allocatable())
                &&& forall|k: int|
                    0 <= k < r.0.spec_fixed().len() ==> #[trigger] resolved_from(
                        sections,
                        r.0.spec_fixed()[k],
                    )
            },
    {
        if self.layout.num_bootable() > 1 {
            return (Resolver::idle(), ResolveRequest::Finished(Err(MemoryError::MultipleBootable)));
        }
        let bins = match self.checked_memory_bins() {
            Some(b) => b,
            None => {
                return (Resolver::idle(), ResolveRequest::Abort);
            },
        };
        proof {
            lemma_gaps_wf(self.chain(), self.page());
        }
        let bin_pages = match bins.checked_num_pages() {
            Some(p) => p,
            None => {
                return (Resolver::idle(), ResolveRequest::Abort);
            },
        };
        let page_size = self.chip.page_size_at(self.chip.start_address());
        let section_pages = match self.layout.num_pages(page_size) {
            Some(p) => p,
            None => {
                return (Resolver::idle(), ResolveRequest::Abort);
            },
        };
        if section_pages > bin_pages {
            return (Resolver::idle(), ResolveRequest::Finished(Err(MemoryError::MemoryTooSmall)));
        }
        let max_pos = self.layout.maximizing_sections();
        let alloc_pos = self.layout.allocatable_sections();
        proof {
            lemma_positions_below(self.spec_layout()@);
        }
        let maximized = self.sections_at(&max_pos);
        let allocatable = self.sections_at(&alloc_pos);
        let fixed = self.resolved_sections();
        let mut resolver = Resolver {
            stage: Stage::Done,
            bins,
            maximized,
            allocatable,
            fixed,
            free_pages: bin_pages - section_pages,
            next_free_pages: 0,
            placing: Vec::new(),
            options: Vec::new(),
            groups: Vec::new(),
        };
        proof {
            assert(resolver@.placing =~= Seq::<SectionView>::empty());
            assert(resolver@.groups =~= Seq::<(u64, Seq<usize>)>::empty());
        }
        let req = resolver.round();
        (resolver, req)
    }
}

/// The positions of the maximized and of the allocated sections are positions of sections.
proof fn lemma_positions_below(v: Seq<SectionView>)
    ensures
        forall|t: int|
            0 <= t < maximizing_positions(v).len() ==> (#[trigger] maximizing_positions(v)[t])
                < v.len(),
        forall|t: int|
            0 <= t < allocatable_positions(v).len() ==> (#[trigger] allocatable_positions(v)[t])
                < v.len(),
    decreases v.len(),
{
    if v.len() > 0 {
        let d = v.drop_last();
        lemma_positions_below(d);
        assert forall|t: int|
            0 <= t < maximizing_positions(v).len() implies (#[trigger] maximizing_positions(v)[t])
            < v.len() by {
            if t < maximizing_positions(d).len() {
                assert(maximizing_positions(v)[t] == maximizing_positions(d)[t]);
            }
        }
        assert forall|t: int|
            0 <= t < allocatable_positions(v).len() implies (#[trigger] allocatable_positions(v)[t])
            < v.len() by {
            if t < allocatable_positions(d).len() {
                assert(allocatable_positions(v)[t] == allocatable_positions(d)[t]);
            }
        }
    }
}

/// The placements are in address order.
pub open spec fn address_ordered(s: Seq<Placement>) -> bool {
    forall|i: int, j: int| 0 <= i < j < s.len() ==> #[trigger] s[i].address <= #[trigger] s[j].address
}

/// Sorting by address keeps the number of placements and puts them in address order.
pub proof fn lemma_sort_by_address(s: Seq<Placement>)
    ensures
        sort_by_address(s).len() == s.len(),
        address_ordered(sort_by_address(s)),
    decreases s.len(),
{
    if s.len() > 0 {
        let d = s.drop_last();
        let x = s.last();
        lemma_sort_by_address(d);
        let sorted = sort_by_address(d);
        lemma_placement_pos(sorted, x.address);
        let p = placement_pos(sorted, x.address);
        let r = sorted.insert(p, x);
        assert forall|i: int, j: int| 0 <= i < j < r.len() implies #[trigger] r[i].address
            <= #[trigger] r[j].address by {
            if i < p && j < p {
                assert(r[i] == sorted[i] && r[j] == sorted[j]);
            } else if i < p && j == p {
                assert(r[i] == sorted[i]);
            } else if i < p {
                assert(r[i] == sorted[i] && r[j] == sorted[j - 1]);
            } else if i == p {
                assert(r[j] == sorted[j - 1]);
            } else {
                assert(r[i] == sorted[i - 1] && r[j] == sorted[j - 1]);
            }
        }
    }
}

/// Where a placement goes in address-ordered placements: after those at or before its
/// address, before those after it.
proof fn lemma_placement_pos(s: Seq<Placement>, a: u64)
    requires
        address_ordered(s),
    ensures
        0 <= placement_pos(s, a) <= s.len(),
        forall|t: int| 0 <= t < placement_pos(s, a) ==> (#[trigger] s[t]).address <= a,
        forall|t: int| placement_pos(s, a) <= t < s.len() ==> (#[trigger] s[t]).address > a,
    decreases s.len(),
{
    if s.len() > 0 {
        let d = s.drop_last();
        assert(address_ordered(d)) by {
            assert forall|i: int, j: int| 0 <= i < j < d.len() implies #[trigger] d[i].address
                <= #[trigger] d[j].address by {
                assert(d[i] == s[i] && d[j] == s[j]);
            }
        }
        lemma_placement_pos(d, a);
        if s.last().address <= a {
            assert forall|t: int| 0 <= t < s.len() implies (#[trigger] s[t]).address <= a by {
                if t < s.len() - 1 {
                    assert(s[t].address <= s[s.len() - 1].address);
                }
            }
        } else {
            assert forall|t: int| 0 <= t < placement_pos(s, a) implies (#[trigger] s[t]).address
                <= a by {
                assert(s[t] == d[t]);
            }
            assert forall|t: int| placement_pos(s, a) <= t < s.len() implies (#[trigger] s[t]).address
                > a by {
                if t < s.len() - 1 {
                    assert(s[t] == d[t]);
                }
            }
        }
    }
}

/// A resolution that finishes with a layout gives its sections in address order.
pub proof fn lemma_finished_in_address_order(st: ResolverView, report: ReportView)
    ensures
        step_spec(st, report).1 matches RequestView::Finished(Ok(l)) ==> address_ordered(l),
{
    if st.stage == Stage::AwaitingPlacement {
        if let ReportView::Solved(values) = report {
            if values.len() == st.options.len() {
                lemma_sort_by_address(
                    chosen_placements(st.placing, st.options, st.groups, values) + st.fixed,
                );
            }
        }
    }
}

} // verus!
