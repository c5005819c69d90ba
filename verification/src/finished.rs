//! What holds of a finished layout: no two of its sections overlap, and it holds every section
//! being placed and every fixed section, once.
//!
//! The fixed sections lie apart in the chain of intervals that frames the free regions, every
//! placed section lies in one free region, and the placement constraints keep the placed
//! sections apart and place each of them once.
use crate::bin::MemoryBin;
use crate::{
    bounded_chain, chain_ordered, gaps, interval, lemma_gaps_wf, sort_by_start, upper_pos, Memory,
};
use crate::placement::{
    all_options, alignment, bin_options, bins_options, chosen, chosen_placements, groups_of,
    chosen_for, lemma_all_options_wf, lemma_chosen, lemma_each_section_chosen_once,
    lemma_groups_sound, lemma_placements_disjoint, make_option,
    option_placement, placement_spec, round_up, scan, section_options, AddressOption,
};
use crate::problem::{satisfies, selection, LpFailure, ProblemView};
use crate::layout::{allocatable_positions, maximizing_positions};
use crate::resolve::{
    at_positions, placement_pos, round_spec, sort_by_address, start_spec, step_spec, ReportView,
    RequestView, ResolverView, Stage,
};
use crate::section::SectionView;
use crate::solver::{free_readout_spec, BuildFailure};
use crate::section::Placement;
use vstd::prelude::*;

verus! {

/// The byte ranges of two placements do not overlap.
pub open spec fn apart(p: Placement, q: Placement) -> bool {
    p.address + p.size <= q.address || q.address + q.size <= p.address
}

/// No two entries of `s` overlap.
pub open spec fn all_apart(s: Seq<Placement>) -> bool {
    forall|i: int, j: int|
        0 <= i < s.len() && 0 <= j < s.len() && i != j ==> apart(#[trigger] s[i], #[trigger] s[j])
}

/// Where an interval is inserted lies within the sequence.
proof fn lemma_upper_pos_range(s: Seq<(u64, u64)>, key: u64)
    ensures
        0 <= upper_pos(s, key) <= s.len(),
    decreases s.len(),
{
    if s.len() > 0 {
        lemma_upper_pos_range(s.drop_last(), key);
    }
}

/// Where a placement is inserted lies within the sequence.
proof fn lemma_placement_pos_range(s: Seq<Placement>, a: u64)
    ensures
        0 <= placement_pos(s, a) <= s.len(),
    decreases s.len(),
{
    if s.len() > 0 {
        lemma_placement_pos_range(s.drop_last(), a);
    }
}

/// The position at which sorting by start puts entry `i` of `s`.
pub open spec fn start_rank(s: Seq<(u64, u64)>, i: int) -> int
    decreases s.len(),
{
    if s.len() == 0 {
        0
    } else {
        let p = upper_pos(sort_by_start(s.drop_last()), s.last().0);
        if i == s.len() - 1 {
            p
        } else {
            let q = start_rank(s.drop_last(), i);
            if q < p {
                q
            } else {
                q + 1
            }
        }
    }
}

/// Sorting by start moves each entry to its own position.
pub proof fn lemma_start_rank(s: Seq<(u64, u64)>)
    ensures
        sort_by_start(s).len() == s.len(),
        forall|i: int|
            0 <= i < s.len() ==> 0 <= #[trigger] start_rank(s, i) < s.len() && sort_by_start(
                s,
            )[start_rank(s, i)] == s[i],
        forall|i: int, j: int|
            0 <= i < s.len() && 0 <= j < s.len() && i != j ==> #[trigger] start_rank(s, i)
                != #[trigger] start_rank(s, j),
    decreases s.len(),
{
    if s.len() > 0 {
        let d = s.drop_last();
        lemma_start_rank(d);
        let sd = sort_by_start(d);
        let x = s.last();
        lemma_upper_pos_range(sd, x.0);
        let p = upper_pos(sd, x.0);
        let r = sort_by_start(s);
        assert(r == sd.insert(p, x));
        assert forall|i: int| 0 <= i < s.len() implies 0 <= #[trigger] start_rank(s, i) < s.len()
            && r[start_rank(s, i)] == s[i] by {
            if i < s.len() - 1 {
                assert(s[i] == d[i]);
                let q = start_rank(d, i);
                assert(0 <= q < d.len() && sd[q] == d[i]);
                if q < p {
                    assert(start_rank(s, i) == q);
                    assert(r[q] == sd[q]);
                } else {
                    assert(start_rank(s, i) == q + 1);
                    assert(r[q + 1] == sd[q]);
                }
            } else {
                assert(start_rank(s, i) == p);
                assert(r[p] == x);
            }
        }
        assert forall|i: int, j: int|
            0 <= i < s.len() && 0 <= j < s.len() && i != j implies #[trigger] start_rank(s, i)
            != #[trigger] start_rank(s, j) by {
            if i < s.len() - 1 && j < s.len() - 1 {
                assert(start_rank(d, i) != start_rank(d, j));
            }
        }
    }
}

/// Every entry of the sorted intervals is an entry of `s`.
pub proof fn lemma_sort_by_start_members(s: Seq<(u64, u64)>)
    ensures
        forall|k: int|
            0 <= k < sort_by_start(s).len() ==> exists|i: int|
                0 <= i < s.len() && s[i] == #[trigger] sort_by_start(s)[k],
    decreases s.len(),
{
    if s.len() > 0 {
        let d = s.drop_last();
        lemma_sort_by_start_members(d);
        lemma_start_rank(d);
        let sd = sort_by_start(d);
        let x = s.last();
        lemma_upper_pos_range(sd, x.0);
        let p = upper_pos(sd, x.0);
        let r = sort_by_start(s);
        assert(r == sd.insert(p, x));
        assert forall|k: int| 0 <= k < r.len() implies exists|i: int|
            0 <= i < s.len() && s[i] == #[trigger] r[k] by {
            if k == p {
                assert(s[s.len() - 1] == r[k]);
            } else {
                let k2 = if k < p {
                    k
                } else {
                    k - 1
                };
                assert(r[k] == sd[k2]);
                let i = choose|i: int| 0 <= i < d.len() && d[i] == #[trigger] sd[k2];
                assert(s[i] == r[k]);
            }
        }
    }
}

/// Sorting by address keeps the placements and keeps them apart.
pub proof fn lemma_sort_by_address_apart(s: Seq<Placement>)
    ensures
        sort_by_address(s).len() == s.len(),
        forall|k: int|
            0 <= k < sort_by_address(s).len() ==> exists|i: int|
                0 <= i < s.len() && s[i] == #[trigger] sort_by_address(s)[k],
        all_apart(s) ==> all_apart(sort_by_address(s)),
    decreases s.len(),
{
    if s.len() > 0 {
        let d = s.drop_last();
        let x = s.last();
        lemma_sort_by_address_apart(d);
        let sd = sort_by_address(d);
        lemma_placement_pos_range(sd, x.address);
        let p = placement_pos(sd, x.address);
        let r = sort_by_address(s);
        assert(r == sd.insert(p, x));
        assert forall|k: int| 0 <= k < r.len() implies exists|i: int|
            0 <= i < s.len() && s[i] == #[trigger] r[k] by {
            if k == p {
                assert(s[s.len() - 1] == r[k]);
            } else {
                let k2 = if k < p {
                    k
                } else {
                    k - 1
                };
                assert(r[k] == sd[k2]);
                let i = choose|i: int| 0 <= i < d.len() && d[i] == #[trigger] sd[k2];
                assert(s[i] == r[k]);
            }
        }
        if all_apart(s) {
            assert(all_apart(d)) by {
                assert forall|i: int, j: int|
                    0 <= i < d.len() && 0 <= j < d.len() && i != j implies apart(
                    #[trigger] d[i],
                    #[trigger] d[j],
                ) by {
                    assert(d[i] == s[i] && d[j] == s[j]);
                }
            }
            assert forall|i: int, j: int|
                0 <= i < r.len() && 0 <= j < r.len() && i != j implies apart(
                #[trigger] r[i],
                #[trigger] r[j],
            ) by {
                let i2 = if i < p {
                    i
                } else {
                    i - 1
                };
                let j2 = if j < p {
                    j
                } else {
                    j - 1
                };
                if i == p {
                    assert(r[j] == sd[j2]);
                    let t = choose|t: int| 0 <= t < d.len() && d[t] == #[trigger] sd[j2];
                    assert(s[t] == r[j] && s[s.len() - 1] == r[i]);
                } else if j == p {
                    assert(r[i] == sd[i2]);
                    let t = choose|t: int| 0 <= t < d.len() && d[t] == #[trigger] sd[i2];
                    assert(s[t] == r[i] && s[s.len() - 1] == r[j]);
                } else {
                    assert(r[i] == sd[i2] && r[j] == sd[j2]);
                }
            }
        }
    }
}

/// Every interval of `g` ends no earlier than it starts.
pub open spec fn intervals_wf(g: Seq<(u64, u64)>) -> bool {
    forall|k: int| 0 <= k < g.len() ==> (#[trigger] g[k]).0 <= g[k].1
}

/// In an ordered chain of intervals, every interval ends before any later one starts.
pub proof fn lemma_chain_monotone(g: Seq<(u64, u64)>)
    requires
        chain_ordered(g),
        intervals_wf(g),
    ensures
        forall|i: int, j: int| 0 <= i < j < g.len() ==> #[trigger] g[i].1 <= #[trigger] g[j].0,
{
    assert forall|i: int, j: int| 0 <= i < j < g.len() implies #[trigger] g[i].1
        <= #[trigger] g[j].0 by {
        lemma_chain_step(g, i, j);
    }
}

proof fn lemma_chain_step(g: Seq<(u64, u64)>, i: int, j: int)
    requires
        chain_ordered(g),
        intervals_wf(g),
        0 <= i < j < g.len(),
    ensures
        g[i].1 <= g[j].0,
    decreases j - i,
{
    if j > i + 1 {
        lemma_chain_step(g, i, j - 1);
        assert(g[j - 1].1 <= g[j - 1 + 1].0);
        assert(g[j - 1].0 <= g[j - 1].1);
    } else {
        assert(g[i].1 <= g[i + 1].0);
    }
}

/// Every free region lies between two consecutive intervals of the chain.
pub proof fn lemma_gaps_between(g: Seq<(u64, u64)>, page_size: u64)
    ensures
        forall|m: int|
            0 <= m < gaps(g, page_size).len() ==> exists|j: int|
                0 <= j && j + 1 < g.len() && (#[trigger] gaps(g, page_size)[m]).start_address
                    == g[j].1 && gaps(g, page_size)[m].end_address == g[j + 1].0,
    decreases g.len(),
{
    if g.len() >= 2 {
        let d = g.drop_last();
        lemma_gaps_between(d, page_size);
        let r = gaps(g, page_size);
        let prev = gaps(d, page_size);
        assert forall|m: int| 0 <= m < r.len() implies exists|j: int|
            0 <= j && j + 1 < g.len() && (#[trigger] r[m]).start_address == g[j].1
                && r[m].end_address == g[j + 1].0 by {
            if m < prev.len() {
                assert(r[m] == prev[m]);
                let j = choose|j: int|
                    0 <= j && j + 1 < d.len() && (#[trigger] prev[m]).start_address == d[j].1
                        && prev[m].end_address == d[j + 1].0;
                assert(d[j] == g[j] && d[j + 1] == g[j + 1]);
            } else {
                let j = g.len() - 2;
                assert(r[m].start_address == g[j].1 && r[m].end_address == g[j + 1].0);
            }
        }
    }
}

/// Where the chain of a memory holds the interval of its fixed section `i`.
pub open spec fn chain_rank<MetaData: Clone>(mem: Memory<MetaData>, i: int) -> int {
    let sorted = mem.sorted_fixed();
    let off: int = if sorted.len() == 0 || sorted[0].0 != mem.start() {
        1
    } else {
        0
    };
    off + start_rank(mem.fixed().map_values(|p: Placement| interval(p)), i)
}

/// The chain of a memory holds the interval of each fixed section at a position of its own,
/// and each of its intervals ends no earlier than it starts.
pub proof fn lemma_chain_holds_fixed<MetaData: Clone>(mem: Memory<MetaData>)
    requires
        mem.chain_computable(),
    ensures
        intervals_wf(mem.chain()),
        forall|i: int|
            0 <= i < mem.fixed().len() ==> 0 <= #[trigger] chain_rank(mem, i) < mem.chain().len()
                && mem.chain()[chain_rank(mem, i)] == interval(mem.fixed()[i]),
        forall|i: int, j: int|
            0 <= i < mem.fixed().len() && 0 <= j < mem.fixed().len() && i != j
                ==> #[trigger] chain_rank(mem, i) != #[trigger] chain_rank(mem, j),
{
    let iv = mem.fixed().map_values(|p: Placement| interval(p));
    let sorted = mem.sorted_fixed();
    let start = mem.start();
    let end = mem.spec_chip().spec_end_address() as u64;
    lemma_start_rank(iv);
    lemma_sort_by_start_members(iv);
    let off: int = if sorted.len() == 0 || sorted[0].0 != start {
        1
    } else {
        0
    };
    let a = if sorted.len() == 0 || sorted[0].0 != start {
        seq![(start, start)] + sorted
    } else {
        sorted
    };
    let c = mem.chain();
    assert(c == bounded_chain(sorted, start, end));
    assert(a.len() == off + sorted.len());
    assert forall|q: int| 0 <= q < sorted.len() implies a[off + q] == #[trigger] sorted[q] by {
        if off == 1 {
            assert(a[1 + q] == sorted[q]);
        }
    }
    assert(forall|q: int| 0 <= q < a.len() ==> c[q] == #[trigger] a[q]);
    assert forall|q: int| 0 <= q < sorted.len() implies (#[trigger] sorted[q]).0 <= sorted[q].1 by {
        let i = choose|i: int| 0 <= i < iv.len() && iv[i] == #[trigger] sorted[q];
        assert(iv[i] == interval(mem.fixed()[i]));
        assert(mem.fixed()[i].address + mem.fixed()[i].size <= u64::MAX);
    }
    assert(start <= end);
    assert forall|k: int| 0 <= k < c.len() implies (#[trigger] c[k]).0 <= c[k].1 by {
        if k < a.len() {
            assert(c[k] == a[k]);
            if k >= off {
                assert(a[off + (k - off)] == sorted[k - off]);
            }
        }
    }
    assert forall|i: int| 0 <= i < mem.fixed().len() implies 0 <= #[trigger] chain_rank(mem, i)
        < mem.chain().len() && mem.chain()[chain_rank(mem, i)] == interval(mem.fixed()[i]) by {
        let q = start_rank(iv, i);
        assert(sorted[q] == iv[i]);
        assert(a[off + q] == sorted[q]);
        assert(c[off + q] == a[off + q]);
    }
}

/// Option `o` starts inside one of the regions `bs`.
pub open spec fn starts_in_region(o: AddressOption, bs: Seq<MemoryBin>) -> bool {
    exists|m: int| 0 <= m < bs.len() && (#[trigger] bs[m]).spec_contains(o.address)
}

/// Option `o` ends within the region of `bs` it starts in.
pub open spec fn ends_in_region(o: AddressOption, bs: Seq<MemoryBin>) -> bool {
    forall|m: int|
        0 <= m < bs.len() && (#[trigger] bs[m]).spec_contains(o.address) ==> o.end_address
            <= bs[m].end_address
}

proof fn lemma_round_up_above(x: int, align: int)
    requires
        align > 0,
        x >= 0,
    ensures
        round_up(x, align) >= x,
{
    assert(x % align < align);
}

proof fn lemma_scan_in_region(s: SectionView, i: usize, b: MemoryBin, align: u64, a: u64)
    requires
        b.start_address <= a,
    ensures
        scan(s, i, b, align, a) matches Ok(v) ==> forall|k: int|
            0 <= k < v.len() ==> b.spec_contains((#[trigger] v[k]).address),
    decreases
            (if a < b.end_address {
                b.end_address - a
            } else {
                0
            }),
{
    if !(a >= b.end_address || !b.fits_at(a, s) || align == 0) {
        let next = round_up(a + 1, align as int);
        lemma_round_up_above(a + 1, align as int);
        if next <= u64::MAX {
            lemma_scan_in_region(s, i, b, align, next as u64);
            if let Ok(v) = scan(s, i, b, align, a) {
                let here = if s.address is None || s.address == Some(a) {
                    make_option(s, i, b, a)
                } else {
                    Ok(Seq::empty())
                };
                let rest = scan(s, i, b, align, next as u64)->Ok_0;
                let h = here->Ok_0;
                assert(v == h + rest);
                assert forall|k: int| 0 <= k < v.len() implies b.spec_contains(
                    (#[trigger] v[k]).address,
                ) by {
                    if k < h.len() {
                        assert(v[k] == h[k]);
                        assert(h[k].address == a);
                    } else {
                        assert(v[k] == rest[k - h.len()]);
                    }
                }
            }
        }
    }
}

proof fn lemma_bins_options_in_region(s: SectionView, i: usize, bs: Seq<MemoryBin>)
    ensures
        bins_options(s, i, bs) matches Ok(v) ==> forall|k: int|
            0 <= k < v.len() ==> starts_in_region(#[trigger] v[k], bs),
    decreases bs.len(),
{
    if bs.len() > 0 {
        let d = bs.drop_last();
        lemma_bins_options_in_region(s, i, d);
        let b = bs.last();
        let align = alignment(s, b);
        if align != 0 {
            let a0 = round_up(b.start_address as int, align as int);
            lemma_round_up_above(b.start_address as int, align as int);
            if a0 <= u64::MAX {
                lemma_scan_in_region(s, i, b, align, a0 as u64);
            }
        }
        if let Ok(v) = bins_options(s, i, bs) {
            let o = bins_options(s, i, d)->Ok_0;
            let o2 = bin_options(s, i, b)->Ok_0;
            assert(v == o + o2);
            assert forall|k: int| 0 <= k < v.len() implies starts_in_region(#[trigger] v[k], bs) by {
                if k < o.len() {
                    assert(v[k] == o[k]);
                    assert(starts_in_region(o[k], d));
                    let m = choose|m: int| 0 <= m < d.len() && (#[trigger] d[m]).spec_contains(
                        o[k].address,
                    );
                    assert(bs[m] == d[m]);
                } else {
                    assert(v[k] == o2[k - o.len()]);
                    assert(bs[bs.len() - 1] == b);
                }
            }
        }
    }
}

/// Every option of a placement starts inside one of the non-empty regions.
pub proof fn lemma_options_in_regions(secs: Seq<SectionView>, bs: Seq<MemoryBin>)
    requires
        forall|m: int| 0 <= m < bs.len() ==> (#[trigger] bs[m]).start_address < bs[m].end_address,
    ensures
        all_options(secs, bs) matches Ok(v) ==> forall|k: int|
            0 <= k < v.len() ==> starts_in_region(#[trigger] v[k], bs),
    decreases secs.len(),
{
    if secs.len() > 0 {
        let i = (secs.len() - 1) as usize;
        lemma_options_in_regions(secs.drop_last(), bs);
        lemma_bins_options_in_region(secs.last(), i, bs);
        if let Ok(v) = all_options(secs, bs) {
            let o = all_options(secs.drop_last(), bs)->Ok_0;
            let o2 = section_options(secs.last(), i, bs)->Ok_0;
            assert(v == o + o2);
            assert forall|k: int| 0 <= k < v.len() implies starts_in_region(#[trigger] v[k], bs) by {
                if k < o.len() {
                    assert(v[k] == o[k]);
                } else {
                    assert(v[k] == o2[k - o.len()]);
                    if bs.len() > 0 && secs.last().boot {
                        assert(o2[k - o.len()].address == bs[0].start_address);
                        assert(bs[0].spec_contains(bs[0].start_address));
                    }
                }
            }
        }
    }
}

/// The state of a resolution keeps the free regions, the sections to maximize, those to place
/// at their size and the fixed sections of `mem`.
pub open spec fn framed_by<MetaData: Clone>(st: ResolverView, mem: Memory<MetaData>) -> bool {
    let v = mem.spec_layout()@;
    &&& mem.bins_computable()
    &&& st.bins == mem.spec_bins()
    &&& st.fixed == mem.fixed()
    &&& st.maximized == at_positions(v, maximizing_positions(v))
    &&& st.allocatable == at_positions(v, allocatable_positions(v))
}

/// The sections being placed are the maximized sections, each with pages given, followed by
/// the sections placed at the size they state.
pub open spec fn placing_from(st: ResolverView) -> bool {
    &&& st.placing.len() == st.maximized.len() + st.allocatable.len()
    &&& forall|i: int|
        0 <= i < st.maximized.len() ==> (#[trigger] st.placing[i]).pages is Some && st.placing[i]
            == (SectionView { pages: st.placing[i].pages, ..st.maximized[i] })
    &&& forall|j: int|
        0 <= j < st.allocatable.len() ==> #[trigger] st.placing[st.maximized.len() + j]
            == st.allocatable[j]
}

/// A pending placement is the one built from the sections being placed, which are the
/// maximized sections with their pages followed by the others to place.
pub open spec fn placement_pending(st: ResolverView) -> bool {
    st.stage == Stage::AwaitingPlacement ==> {
        &&& all_options(st.placing, st.bins) == Ok::<Seq<AddressOption>, BuildFailure>(st.options)
        &&& st.groups == groups_of(st.options)
        &&& placement_spec(st.placing, st.bins) is Ok
        &&& placing_from(st)
    }
}

/// A solution for the pending placement meets its constraints and places every section
/// within the free region it starts in.
pub open spec fn answers_placement(st: ResolverView, report: ReportView) -> bool {
    &&& solves_placement(st, report)
    &&& report matches ReportView::Solved(values) ==> values.len() == st.options.len() ==> {
        forall|u: int|
            0 <= u < chosen(st.groups, values).len() ==> ends_in_region(
                #[trigger] st.options[chosen(st.groups, values)[u] as int],
                st.bins,
            )
    }
}

/// A resolution that goes on after its start holds the free regions, the sections to resolve
/// and the fixed sections of the memory.
pub proof fn lemma_start_framed<MetaData: Clone>(mem: Memory<MetaData>)
    ensures
        start_spec(mem).0.stage != Stage::Done ==> framed_by(start_spec(mem).0, mem)
            && placement_pending(start_spec(mem).0),
{
}

/// Every step of a resolution keeps the free regions, the sections to resolve and the fixed
/// sections, and a placement it hands out is the one built from the sections being placed.
pub proof fn lemma_step_framed<MetaData: Clone>(
    mem: Memory<MetaData>,
    st: ResolverView,
    report: ReportView,
)
    requires
        framed_by(st, mem),
    ensures
        framed_by(step_spec(st, report).0, mem),
        placement_pending(step_spec(st, report).0),
{
    if st.stage == Stage::AwaitingPlacement {
        if report == ReportView::Failed(LpFailure::Infeasible) {
            let st2 = ResolverView { free_pages: st.next_free_pages, ..st };
            assert(round_spec(st2).0.stage != Stage::AwaitingPlacement);
        }
    }
    lemma_placing_sections(st, report);
}

proof fn lemma_fixed_apart<MetaData: Clone>(mem: Memory<MetaData>, i: int, j: int)
    requires
        mem.bins_computable(),
        0 <= i < mem.fixed().len(),
        0 <= j < mem.fixed().len(),
        i != j,
    ensures
        apart(mem.fixed()[i], mem.fixed()[j]),
{
    lemma_chain_holds_fixed(mem);
    lemma_chain_monotone(mem.chain());
    let r1 = chain_rank(mem, i);
    let r2 = chain_rank(mem, j);
    let c = mem.chain();
    assert(mem.fixed()[i].address + mem.fixed()[i].size <= u64::MAX);
    assert(mem.fixed()[j].address + mem.fixed()[j].size <= u64::MAX);
    if r1 < r2 {
        assert(c[r1].1 <= c[r2].0);
    } else {
        assert(c[r2].1 <= c[r1].0);
    }
}

proof fn lemma_region_apart_from_fixed<MetaData: Clone>(
    mem: Memory<MetaData>,
    m: int,
    x: u64,
    y: u64,
    i: int,
)
    requires
        mem.bins_computable(),
        0 <= m < mem.spec_bins().len(),
        mem.spec_bins()[m].start_address <= x <= y <= mem.spec_bins()[m].end_address,
        0 <= i < mem.fixed().len(),
    ensures
        mem.fixed()[i].address + mem.fixed()[i].size <= x || y <= mem.fixed()[i].address,
{
    lemma_chain_holds_fixed(mem);
    lemma_chain_monotone(mem.chain());
    lemma_gaps_between(mem.chain(), mem.page());
    let c = mem.chain();
    let b = mem.spec_bins()[m];
    let j = choose|j: int|
        0 <= j && j + 1 < c.len() && (#[trigger] gaps(c, mem.page())[m]).start_address == c[j].1
            && gaps(c, mem.page())[m].end_address == c[j + 1].0;
    let r = chain_rank(mem, i);
    assert(c[r] == interval(mem.fixed()[i]));
    assert(mem.fixed()[i].address + mem.fixed()[i].size <= u64::MAX);
    if r < j {
        assert(c[r].1 <= c[j].0);
        assert(c[j].0 <= c[j].1);
    } else if r > j + 1 {
        assert(c[j + 1].1 <= c[r].0);
        assert(c[j + 1].0 <= c[j + 1].1);
    }
}

/// No two sections of a finished layout overlap.
///
/// When a resolution, in a state that keeps the free regions and fixed sections of `mem` and
/// whose pending placement is built from the sections being placed, finishes with a layout on
/// a report whose solution meets the placement constraints and places every section within
/// the free region it starts in, the byte ranges of the layout's sections are pairwise apart.
pub proof fn lemma_finished_layout_apart<MetaData: Clone>(
    mem: Memory<MetaData>,
    st: ResolverView,
    report: ReportView,
)
    requires
        framed_by(st, mem),
        placement_pending(st),
        st.placing.len() <= usize::MAX,
        st.options.len() <= usize::MAX,
        answers_placement(st, report),
    ensures
        step_spec(st, report).1 matches RequestView::Finished(Ok(l)) ==> all_apart(l),
{
    if st.stage == Stage::AwaitingPlacement {
        if let ReportView::Solved(values) = report {
            if values.len() == st.options.len() {
                let secs = st.placing;
                let bs = st.bins;
                let opts = st.options;
                let p: ProblemView = placement_spec(secs, bs)->Ok_0;
                let g = groups_of(opts);
                let c = chosen(g, values);
                let a = chosen_placements(secs, opts, g, values);
                let t = a + st.fixed;
                let n1 = a.len();
                lemma_gaps_wf(mem.chain(), mem.page());
                lemma_options_in_regions(secs, bs);
                lemma_all_options_wf(secs, bs);
                lemma_groups_sound(opts);
                lemma_chosen(opts, g, values, g.len() as int);
                assert forall|i: int, j: int|
                    0 <= i < t.len() && 0 <= j < t.len() && i != j implies apart(
                    #[trigger] t[i],
                    #[trigger] t[j],
                ) by {
                    if i < n1 && j < n1 {
                        if i < j {
                            lemma_placements_disjoint(secs, bs, opts, p, values, i, j);
                        } else {
                            lemma_placements_disjoint(secs, bs, opts, p, values, j, i);
                        }
                        assert(t[i] == a[i] && t[j] == a[j]);
                    } else if i >= n1 && j >= n1 {
                        lemma_fixed_apart(mem, i - n1, j - n1);
                        assert(t[i] == mem.fixed()[i - n1] && t[j] == mem.fixed()[j - n1]);
                    } else {
                        let (u, f) = if i < n1 {
                            (i, j - n1)
                        } else {
                            (j, i - n1)
                        };
                        let o = opts[c[u] as int];
                        assert(starts_in_region(o, bs));
                        let m = choose|m: int| 0 <= m < bs.len() && (#[trigger] bs[m]).spec_contains(
                            o.address,
                        );
                        assert(ends_in_region(opts[c[u] as int], bs));
                        assert(o.end_address <= bs[m].end_address);
                        lemma_region_apart_from_fixed(mem, m, o.address, o.end_address, f);
                        assert(a[u] == option_placement(secs, o));
                        assert(t[u] == a[u]);
                        assert(t[n1 + f] == mem.fixed()[f]);
                    }
                }
                lemma_sort_by_address_apart(t);
            }
        }
    }
}


/// Every placement of `s` is somewhere in the placements sorted by address.
pub proof fn lemma_sort_by_address_holds(s: Seq<Placement>)
    ensures
        forall|i: int| 0 <= i < s.len() ==> #[trigger] holds_placement(sort_by_address(s), s[i]),
    decreases s.len(),
{
    if s.len() > 0 {
        let d = s.drop_last();
        let x = s.last();
        lemma_sort_by_address_holds(d);
        lemma_sort_by_address_apart(d);
        let sd = sort_by_address(d);
        lemma_placement_pos_range(sd, x.address);
        let p = placement_pos(sd, x.address);
        let r = sort_by_address(s);
        assert(r == sd.insert(p, x));
        assert forall|i: int| 0 <= i < s.len() implies #[trigger] holds_placement(r, s[i]) by {
            if i == s.len() - 1 {
                assert(r[p] == s[i]);
            } else {
                assert(s[i] == d[i]);
                assert(holds_placement(sd, d[i]));
                let k = choose|k: int| 0 <= k < sd.len() && sd[k] == d[i];
                if k < p {
                    assert(r[k] == sd[k]);
                } else {
                    assert(r[k + 1] == sd[k]);
                }
            }
        }
    }
}

/// Some entry of `l` is the placement `p`.
pub open spec fn holds_placement(l: Seq<Placement>, p: Placement) -> bool {
    exists|k: int| 0 <= k < l.len() && l[k] == p
}

/// Some entry of `l` places the section with requirements `s`: it has its name and its linker
/// name.
pub open spec fn holds_section(l: Seq<Placement>, s: SectionView) -> bool {
    exists|k: int|
        0 <= k < l.len() && l[k].name == s.name && l[k].linker_name == s.effective_linker_name()
}

/// A solution for the pending placement meets its constraints.
pub open spec fn solves_placement(st: ResolverView, report: ReportView) -> bool {
    report matches ReportView::Solved(values) ==> values.len() == st.options.len() ==> satisfies(
        placement_spec(st.placing, st.bins)->Ok_0,
        selection(values),
    )
}

/// Every section being placed and every fixed section is in a finished layout, once.
///
/// When a resolution, whose pending placement is built from the sections being placed,
/// finishes with a layout on a report whose solution meets the placement constraints, the
/// layout has one entry per section being placed and per fixed section, places each section
/// being placed under its name and linker name, and holds each fixed placement.
pub proof fn lemma_finished_layout_complete(st: ResolverView, report: ReportView)
    requires
        placement_pending(st),
        st.placing.len() <= usize::MAX,
        st.options.len() <= usize::MAX,
        solves_placement(st, report),
    ensures
        step_spec(st, report).1 matches RequestView::Finished(Ok(l)) ==> {
            &&& l.len() == st.placing.len() + st.fixed.len()
            &&& forall|i: int| 0 <= i < st.placing.len() ==> #[trigger] holds_section(l, st.placing[i])
            &&& forall|f: int| 0 <= f < st.fixed.len() ==> #[trigger] holds_placement(l, st.fixed[f])
        },
{
    if st.stage == Stage::AwaitingPlacement {
        if let ReportView::Solved(values) = report {
            if values.len() == st.options.len() {
                let secs = st.placing;
                let bs = st.bins;
                let opts = st.options;
                let p: ProblemView = placement_spec(secs, bs)->Ok_0;
                let g = groups_of(opts);
                let c = chosen(g, values);
                let a = chosen_placements(secs, opts, g, values);
                let t = a + st.fixed;
                let l = sort_by_address(t);
                lemma_each_section_chosen_once(secs, bs, opts, p, values);
                lemma_sort_by_address_apart(t);
                lemma_sort_by_address_holds(t);
                assert forall|i: int| 0 <= i < secs.len() implies #[trigger] holds_section(l, secs[i]) by {
                    assert(chosen_for(opts, c, i));
                    let u = choose|u: int| 0 <= u < c.len() && #[trigger] opts[c[u] as int].section == i;
                    assert(a[u] == option_placement(secs, opts[c[u] as int]));
                    assert(t[u] == a[u]);
                    assert(holds_placement(l, t[u]));
                }
                assert forall|f: int| 0 <= f < st.fixed.len() implies #[trigger] holds_placement(l, st.fixed[f]) by {
                    assert(t[a.len() + f] == st.fixed[f]);
                    assert(holds_placement(l, t[a.len() + f]));
                }
            }
        }
    }
}


/// The sections a resolution places are the maximized sections, each with the pages the
/// solution gave it, followed by the sections placed at the size they state.
pub proof fn lemma_placing_sections(st: ResolverView, report: ReportView)
    ensures
        st.stage == Stage::AwaitingSizes && step_spec(st, report).0.stage
            == Stage::AwaitingPlacement ==> placing_from(step_spec(st, report).0),
{
    if st.stage == Stage::AwaitingSizes && step_spec(st, report).0.stage == Stage::AwaitingPlacement {
        let values = report->Solved_0;
        let maxed = free_readout_spec(st.maximized, values)->Ok_0;
        let next = step_spec(st, report).0;
        let placing = next.placing;
        assert(placing == maxed + st.allocatable);
        assert(next.maximized == st.maximized && next.allocatable == st.allocatable);
        assert forall|j: int| 0 <= j < st.allocatable.len() implies #[trigger] placing[st.maximized.len() + j]
            == st.allocatable[j] by {
            assert(placing[maxed.len() + j] == st.allocatable[j]);
        }
    }
}

/// Every position of a section to maximize is listed among the maximizing positions, and
/// likewise for the sections placed at their size.
pub proof fn lemma_positions_listed(v: Seq<SectionView>, i: int)
    requires
        0 <= i < v.len(),
        v.len() <= usize::MAX,
    ensures
        v[i].needs_maximizing() ==> exists|t: int|
            0 <= t < maximizing_positions(v).len() && #[trigger] maximizing_positions(v)[t]
                == i as usize,
        v[i].needs_allocating() ==> exists|t: int|
            0 <= t < allocatable_positions(v).len() && #[trigger] allocatable_positions(v)[t]
                == i as usize,
    decreases v.len(),
{
    let d = v.drop_last();
    if i < v.len() - 1 {
        assert(d[i] == v[i]);
        lemma_positions_listed(d, i);
        if v[i].needs_maximizing() {
            let t = choose|t: int|
                0 <= t < maximizing_positions(d).len() && #[trigger] maximizing_positions(d)[t]
                    == i as usize;
            assert(maximizing_positions(v)[t] == maximizing_positions(d)[t]);
        }
        if v[i].needs_allocating() {
            let t = choose|t: int|
                0 <= t < allocatable_positions(d).len() && #[trigger] allocatable_positions(d)[t]
                    == i as usize;
            assert(allocatable_positions(v)[t] == allocatable_positions(d)[t]);
        }
    } else {
        if v[i].needs_maximizing() {
            assert(maximizing_positions(v)[maximizing_positions(d).len() as int] == i as usize);
        }
        if v[i].needs_allocating() {
            assert(allocatable_positions(v)[allocatable_positions(d).len() as int] == i as usize);
        }
    }
}

/// A finished layout holds every section of the memory's layout that is maximized or placed
/// at the size it states, under its name and linker name, and every fixed section, once.
///
/// When a resolution, in a state that keeps what it resolves from `mem` and whose pending
/// placement is built from the sections being placed, finishes with a layout on a report
/// whose solution meets the placement constraints, the layout places each such section and
/// holds each fixed placement, with one entry per section.
pub proof fn lemma_finished_holds_layout<MetaData: Clone>(
    mem: Memory<MetaData>,
    st: ResolverView,
    report: ReportView,
)
    requires
        framed_by(st, mem),
        placement_pending(st),
        st.placing.len() <= usize::MAX,
        st.options.len() <= usize::MAX,
        mem.spec_layout()@.len() <= usize::MAX,
        solves_placement(st, report),
    ensures
        step_spec(st, report).1 matches RequestView::Finished(Ok(l)) ==> {
            let v = mem.spec_layout()@;
            &&& l.len() == maximizing_positions(v).len() + allocatable_positions(v).len()
                + mem.fixed().len()
            &&& forall|i: int|
                0 <= i < v.len() && (v[i].needs_maximizing() || v[i].needs_allocating())
                    ==> #[trigger] holds_section(l, v[i])
            &&& forall|f: int| 0 <= f < mem.fixed().len() ==> #[trigger] holds_placement(l, mem.fixed()[f])
        },
{
    lemma_finished_layout_complete(st, report);
    if let RequestView::Finished(Ok(l)) = step_spec(st, report).1 {
        let v = mem.spec_layout()@;
        assert(st.stage == Stage::AwaitingPlacement);
        assert forall|i: int|
            0 <= i < v.len() && (v[i].needs_maximizing() || v[i].needs_allocating())
                implies #[trigger] holds_section(l, v[i]) by {
            lemma_positions_listed(v, i);
            let m = st.maximized.len();
            if v[i].needs_maximizing() {
                let t = choose|t: int|
                    0 <= t < maximizing_positions(v).len() && #[trigger] maximizing_positions(v)[t]
                        == i as usize;
                assert(st.maximized[t] == v[i]);
                assert(holds_section(l, st.placing[t]));
                assert(st.placing[t].name == v[i].name);
                assert(st.placing[t].effective_linker_name() == v[i].effective_linker_name());
            } else {
                let t = choose|t: int|
                    0 <= t < allocatable_positions(v).len() && #[trigger] allocatable_positions(v)[t]
                        == i as usize;
                assert(st.allocatable[t] == v[i]);
                assert(st.placing[m + t] == v[i]);
                assert(holds_section(l, st.placing[m + t]));
            }
        }
    }
}

} // verus!
