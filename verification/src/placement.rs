//! Placing sections in the free regions: the candidate addresses of each section, the
//! constraints that keep the chosen ones apart, and how a solution is read back.
use crate::bin::{Bin, MemoryBin};
use crate::layout::section_views;
use crate::problem::{
    constraint_views, holds, satisfies, selection, terms_value, exact, Constraint, ConstraintView, LinearProblem, ProblemView, Relation,
    Sense, VarKind, Variable, EXACT_LIMIT,
};
use crate::section::{placement_of, Placement, ResolvedSection, Section, SectionView};
use crate::problem::SolvedValue;
use crate::solver::{BuildFailure, SolverError};
use vstd::prelude::*;

verus! {

/// A place where a section could be allocated.
#[derive(Debug, Clone, Copy, PartialEq, Eq, Structural)]
pub struct AddressOption {
    /// Position of the section in the list being placed.
    pub section: usize,
    /// Start address.
    pub address: u64,
    /// First address past the section.
    pub end_address: u64,
    /// Number of pages of the section there.
    pub pages: u64,
}

/// `x` rounded up to a multiple of `align`.
pub open spec fn round_up(x: int, align: int) -> int
    recommends
        align > 0,
{
    if x % align == 0 {
        x
    } else {
        x + align - x % align
    }
}

/// `x` rounded up to a multiple of `align`, when that fits in `u64`.
pub fn next_multiple(x: u64, align: u64) -> (r: Option<u64>)
    requires
        align > 0,
    ensures
        round_up(x as int, align as int) <= u64::MAX ==> r == Some(
            round_up(x as int, align as int) as u64,
        ),
        round_up(x as int, align as int) > u64::MAX ==> r is None,
{
    let rem = x % align;
    if rem == 0 {
        Some(x)
    } else {
        x.checked_add(align - rem)
    }
}

/// Pages of a section with requirements `s` in a region with pages of `page_size` bytes; zero
/// when it has no size bound.
pub open spec fn pages_in(s: SectionView, page_size: u64) -> u64 {
    match s.required_pages(page_size) {
        Ok(p) => p,
        Err(_) => 0,
    }
}

/// The option of placing section `i` with requirements `s` at `a` in region `b`.
pub open spec fn make_option(s: SectionView, i: usize, b: MemoryBin, a: u64) -> Result<
    Seq<AddressOption>,
    BuildFailure,
> {
    if a > EXACT_LIMIT {
        Err(BuildFailure::Rejected(SolverError::TooManyFlashPages))
    } else {
        let pages = pages_in(s, b.page_size);
        let size = pages * b.page_size;
        if size > u64::MAX || a + size > u64::MAX {
            Err(BuildFailure::Overflow)
        } else {
            Ok(
                seq![
                    AddressOption {
                        section: i,
                        address: a,
                        end_address: (a + size) as u64,
                        pages,
                    },
                ],
            )
        }
    }
}

/// The candidates of section `i` in region `b` from address `a` on, stepping by `align`,
/// while the section fits.
pub open spec fn scan(s: SectionView, i: usize, b: MemoryBin, align: u64, a: u64) -> Result<
    Seq<AddressOption>,
    BuildFailure,
>
    decreases
            (if a < b.end_address {
                b.end_address - a
            } else {
                0
            }),
{
    if a >= b.end_address || !b.fits_at(a, s) || align == 0 {
        Ok(Seq::empty())
    } else {
        let here = if s.address is None || s.address == Some(a) {
            make_option(s, i, b, a)
        } else {
            Ok(Seq::empty())
        };
        match here {
            Err(e) => Err(e),
            Ok(h) => {
                let next = round_up(a + 1, align as int);
                if next > u64::MAX {
                    Err(BuildFailure::Overflow)
                } else {
                    match scan(s, i, b, align, next as u64) {
                        Err(e) => Err(e),
                        Ok(rest) => Ok(h + rest),
                    }
                }
            },
        }
    }
}

/// Alignment of a section in region `b`: its own, else the page size.
pub open spec fn alignment(s: SectionView, b: MemoryBin) -> u64 {
    match s.address_align {
        Some(x) => x,
        None => b.page_size,
    }
}

/// The candidates of section `i` in region `b`.
pub open spec fn bin_options(s: SectionView, i: usize, b: MemoryBin) -> Result<
    Seq<AddressOption>,
    BuildFailure,
> {
    let align = alignment(s, b);
    if align == 0 {
        Err(BuildFailure::Overflow)
    } else {
        let a0 = round_up(b.start_address as int, align as int);
        if a0 > u64::MAX {
            Err(BuildFailure::Overflow)
        } else {
            scan(s, i, b, align, a0 as u64)
        }
    }
}

/// The candidates of section `i` in the regions `bs`, region by region.
pub open spec fn bins_options(s: SectionView, i: usize, bs: Seq<MemoryBin>) -> Result<
    Seq<AddressOption>,
    BuildFailure,
>
    decreases bs.len(),
{
    if bs.len() == 0 {
        Ok(Seq::empty())
    } else {
        match bins_options(s, i, bs.drop_last()) {
            Err(e) => Err(e),
            Ok(o) => match bin_options(s, i, bs.last()) {
                Err(e) => Err(e),
                Ok(o2) => Ok(o + o2),
            },
        }
    }
}

/// The candidates of section `i`: the start of the first region for a boot section, else
/// those in every region.
pub open spec fn section_options(s: SectionView, i: usize, bs: Seq<MemoryBin>) -> Result<
    Seq<AddressOption>,
    BuildFailure,
> {
    if bs.len() > 0 && s.boot {
        make_option(s, i, bs[0], bs[0].start_address)
    } else {
        bins_options(s, i, bs)
    }
}

/// The candidates of all sections, section by section.
pub open spec fn all_options(secs: Seq<SectionView>, bs: Seq<MemoryBin>) -> Result<
    Seq<AddressOption>,
    BuildFailure,
>
    decreases secs.len(),
{
    if secs.len() == 0 {
        Ok(Seq::empty())
    } else {
        match all_options(secs.drop_last(), bs) {
            Err(e) => Err(e),
            Ok(o) => match section_options(secs.last(), (secs.len() - 1) as usize, bs) {
                Err(e) => Err(e),
                Ok(o2) => Ok(o + o2),
            },
        }
    }
}

/// `r` with `prefix` put in front of its options.
pub open spec fn prepend(prefix: Seq<AddressOption>, r: Result<Seq<AddressOption>, BuildFailure>) -> Result<
    Seq<AddressOption>,
    BuildFailure,
> {
    match r {
        Ok(u) => Ok(prefix + u),
        Err(e) => Err(e),
    }
}

/// The options of `r`, or the failure.
pub open spec fn options_view(r: Result<Vec<AddressOption>, BuildFailure>) -> Result<
    Seq<AddressOption>,
    BuildFailure,
> {
    match r {
        Ok(v) => Ok(v@),
        Err(e) => Err(e),
    }
}

/// Candidates of section `i` in region `b`, from address `start` on.
fn scan_exec<MetaData: Clone>(
    section: &Section<MetaData>,
    i: usize,
    b: &MemoryBin,
    align: u64,
    start: u64,
) -> (r: Result<Vec<AddressOption>, BuildFailure>)
    requires
        align > 0,
        b.page_size > 0,
    ensures
        options_view(r) == scan(section@, i, *b, align, start),
{
    let mut out: Vec<AddressOption> = Vec::new();
    let mut a = start;
    proof {
        assert(Seq::<AddressOption>::empty() + (match scan(section@, i, *b, align, start) {
            Ok(u) => u,
            Err(_) => Seq::empty(),
        }) =~= (match scan(section@, i, *b, align, start) {
            Ok(u) => u,
            Err(_) => Seq::empty(),
        }));
    }
    while a < b.end_address && b.section_fits_at_address(a, section)
        invariant
            align > 0,
            b.page_size > 0,
            scan(section@, i, *b, align, start) == prepend(out@, scan(section@, i, *b, align, a)),
        decreases
                (if a < b.end_address {
                    b.end_address - a
                } else {
                    0
                }),
    {
        let matches = match section.address() {
            None => true,
            Some(addr) => addr == a,
        };
        let ghost old_out = out@;
        let ghost old_a = a;
        if matches {
            if a > EXACT_LIMIT {
                return Err(BuildFailure::Rejected(SolverError::TooManyFlashPages));
            }
            let pages = match section.required_pages_in_bin(b) {
                Ok(p) => p,
                Err(_) => 0,
            };
            let size = match pages.checked_mul(b.page_size) {
                Some(z) => z,
                None => {
                    return Err(BuildFailure::Overflow);
                },
            };
            let end = match a.checked_add(size) {
                Some(e) => e,
                None => {
                    return Err(BuildFailure::Overflow);
                },
            };
            out.push(AddressOption { section: i, address: a, end_address: end, pages });
            proof {
                assert(make_option(section@, i, *b, old_a) == Ok::<Seq<AddressOption>, BuildFailure>(
                    seq![AddressOption { section: i, address: a, end_address: end, pages }],
                ));
                assert(out@.subrange(old_out.len() as int, out@.len() as int) =~= seq![
                    AddressOption { section: i, address: a, end_address: end, pages },
                ]);
            }
        } else {
            proof {
                assert(out@.subrange(old_out.len() as int, out@.len() as int) =~= Seq::<
                    AddressOption,
                >::empty());
            }
        }
        let next = match next_multiple(a + 1, align) {
            Some(x) => x,
            None => {
                return Err(BuildFailure::Overflow);
            },
        };
        proof {
            assert(round_up(old_a + 1, align as int) >= old_a + 1) by (nonlinear_arith)
                requires
                    align > 0,
            {
                assert((old_a + 1) % (align as int) < align);
            }
            let h = out@.subrange(old_out.len() as int, out@.len() as int);
            assert(out@ =~= old_out + h);
            match scan(section@, i, *b, align, next) {
                Ok(rest) => {
                    assert(scan(section@, i, *b, align, old_a) == Ok::<
                        Seq<AddressOption>,
                        BuildFailure,
                    >(h + rest));
                    assert(old_out + (h + rest) =~= out@ + rest);
                },
                Err(_) => {},
            }
        }
        a = next;
    }
    proof {
        assert(out@ + Seq::<AddressOption>::empty() =~= out@);
    }
    Ok(out)
}

/// Candidates of section `i` in region `b`.
fn bin_options_exec<MetaData: Clone>(section: &Section<MetaData>, i: usize, b: &MemoryBin) -> (r:
    Result<Vec<AddressOption>, BuildFailure>)
    requires
        b.page_size > 0,
    ensures
        options_view(r) == bin_options(section@, i, *b),
{
    let align = match section.address_align() {
        Some(x) => x,
        None => b.page_size,
    };
    if align == 0 {
        return Err(BuildFailure::Overflow);
    }
    let first = match next_multiple(b.start_address, align) {
        Some(x) => x,
        None => {
            return Err(BuildFailure::Overflow);
        },
    };
    scan_exec(section, i, b, align, first)
}

/// Candidates of section `i` in the regions `bins`, region by region.
fn bins_options_exec<MetaData: Clone>(section: &Section<MetaData>, i: usize, bins: &Bin) -> (r:
    Result<Vec<AddressOption>, BuildFailure>)
    requires
        forall|k: int| 0 <= k < bins@.len() ==> (#[trigger] bins@[k]).page_size > 0,
    ensures
        options_view(r) == bins_options(section@, i, bins@),
{
    let mut out: Vec<AddressOption> = Vec::new();
    let bs = bins.as_slice();
    let n = bs.len();
    for k in 0..n
        invariant
            n == bins@.len(),
            bs@ == bins@,
            forall|t: int| 0 <= t < bins@.len() ==> (#[trigger] bins@[t]).page_size > 0,
            bins_options(section@, i, bins@.take(k as int)) == Ok::<
                Seq<AddressOption>,
                BuildFailure,
            >(out@),
    {
        proof {
            assert(bins@.take(k + 1).drop_last() =~= bins@.take(k as int));
            assert(bins@.take(k + 1).last() == bins@[k as int]);
        }
        let b = &bs[k];
        match bin_options_exec(section, i, b) {
            Err(e) => {
                proof {
                    lemma_bins_options_err(section@, i, bins@, k + 1);
                }
                return Err(e);
            },
            Ok(mut more) => {
                out.append(&mut more);
            },
        }
    }
    proof {
        assert(bins@.take(n as int) =~= bins@);
    }
    Ok(out)
}

/// A failure on a prefix of the regions is the failure on all of them.
proof fn lemma_bins_options_err(s: SectionView, i: usize, bs: Seq<MemoryBin>, m: int)
    requires
        0 <= m <= bs.len(),
        bins_options(s, i, bs.take(m)) is Err,
    ensures
        bins_options(s, i, bs) == bins_options(s, i, bs.take(m)),
    decreases bs.len() - m,
{
    if m == bs.len() {
        assert(bs.take(m) =~= bs);
    } else {
        assert(bs.take(m + 1).drop_last() =~= bs.take(m));
        lemma_bins_options_err(s, i, bs, m + 1);
    }
}

/// Candidates of section `i`: the start of the first region for a boot section, else those in
/// every region.
fn section_options_exec<MetaData: Clone>(section: &Section<MetaData>, i: usize, bins: &Bin) -> (r:
    Result<Vec<AddressOption>, BuildFailure>)
    requires
        forall|k: int| 0 <= k < bins@.len() ==> (#[trigger] bins@[k]).page_size > 0,
    ensures
        options_view(r) == section_options(section@, i, bins@),
{
    let bs = bins.as_slice();
    if bs.len() > 0 && section.boot() {
        let b = &bs[0];
        let a = b.start_address;
        if a > EXACT_LIMIT {
            return Err(BuildFailure::Rejected(SolverError::TooManyFlashPages));
        }
        let pages = match section.required_pages_in_bin(b) {
            Ok(p) => p,
            Err(_) => 0,
        };
        let size = match pages.checked_mul(b.page_size) {
            Some(z) => z,
            None => {
                return Err(BuildFailure::Overflow);
            },
        };
        let end = match a.checked_add(size) {
            Some(e) => e,
            None => {
                return Err(BuildFailure::Overflow);
            },
        };
        let mut out: Vec<AddressOption> = Vec::new();
        out.push(AddressOption { section: i, address: a, end_address: end, pages });
        proof {
            assert(out@ =~= seq![AddressOption { section: i, address: a, end_address: end, pages }]);
        }
        Ok(out)
    } else {
        bins_options_exec(section, i, bins)
    }
}

/// A failure for a prefix of the sections is the failure for all of them.
proof fn lemma_all_options_err(secs: Seq<SectionView>, bs: Seq<MemoryBin>, m: int)
    requires
        0 <= m <= secs.len(),
        all_options(secs.take(m), bs) is Err,
    ensures
        all_options(secs, bs) == all_options(secs.take(m), bs),
    decreases secs.len() - m,
{
    if m == secs.len() {
        assert(secs.take(m) =~= secs);
    } else {
        assert(secs.take(m + 1).drop_last() =~= secs.take(m));
        lemma_all_options_err(secs, bs, m + 1);
    }
}

/// Candidates of all `sections`, section by section.
fn all_options_exec<MetaData: Clone>(sections: &Vec<Section<MetaData>>, bins: &Bin) -> (r: Result<
    Vec<AddressOption>,
    BuildFailure,
>)
    requires
        forall|k: int| 0 <= k < bins@.len() ==> (#[trigger] bins@[k]).page_size > 0,
    ensures
        options_view(r) == all_options(section_views(sections@), bins@),
{
    let ghost secs = section_views(sections@);
    let mut out: Vec<AddressOption> = Vec::new();
    let n = sections.len();
    for i in 0..n
        invariant
            n == secs.len(),
            secs == section_views(sections@),
            forall|k: int| 0 <= k < bins@.len() ==> (#[trigger] bins@[k]).page_size > 0,
            all_options(secs.take(i as int), bins@) == Ok::<Seq<AddressOption>, BuildFailure>(
                out@,
            ),
    {
        proof {
            assert(secs.take(i + 1).drop_last() =~= secs.take(i as int));
            assert(secs.take(i + 1).last() == sections@[i as int]@);
        }
        match section_options_exec(&sections[i], i, bins) {
            Err(e) => {
                proof {
                    lemma_all_options_err(secs, bins@, i + 1);
                }
                return Err(e);
            },
            Ok(mut more) => {
                out.append(&mut more);
            },
        }
    }
    proof {
        assert(secs.take(n as int) =~= secs);
    }
    Ok(out)
}

/// The options at one address, by position.
#[derive(Debug, Clone, PartialEq)]
pub struct AddressGroup {
    /// The address.
    pub address: u64,
    /// Positions of the options at this address, ascending.
    pub options: Vec<usize>,
}

/// The contents of address groups.
pub open spec fn groups_view(g: Seq<AddressGroup>) -> Seq<(u64, Seq<usize>)> {
    g.map_values(|x: AddressGroup| (x.address, x.options@))
}

/// Position of the first group at address `a`.
pub open spec fn group_find(g: Seq<(u64, Seq<usize>)>, a: u64) -> Option<int>
    decreases g.len(),
{
    if g.len() == 0 {
        None
    } else if g[0].0 == a {
        Some(0)
    } else {
        match group_find(g.drop_first(), a) {
            Some(j) => Some(j + 1),
            None => None,
        }
    }
}

/// Position after the trailing groups at addresses not below `a`.
pub open spec fn key_pos(g: Seq<(u64, Seq<usize>)>, a: u64) -> int
    decreases g.len(),
{
    if g.len() == 0 {
        0
    } else if g.last().0 < a {
        g.len() as int
    } else {
        key_pos(g.drop_last(), a)
    }
}

/// `g` with option `k` at address `a` added to its group, or in a new group in address order.
pub open spec fn group_insert(g: Seq<(u64, Seq<usize>)>, a: u64, k: usize) -> Seq<
    (u64, Seq<usize>),
> {
    match group_find(g, a) {
        Some(j) => g.update(j, (a, g[j].1.push(k))),
        None => g.insert(key_pos(g, a), (a, seq![k])),
    }
}

/// The options grouped by address, groups in address order.
pub open spec fn groups_of(opts: Seq<AddressOption>) -> Seq<(u64, Seq<usize>)>
    decreases opts.len(),
{
    if opts.len() == 0 {
        Seq::empty()
    } else {
        group_insert(groups_of(opts.drop_last()), opts.last().address, (opts.len() - 1) as usize)
    }
}

/// What `group_find` finds.
proof fn lemma_group_find(g: Seq<(u64, Seq<usize>)>, a: u64)
    ensures
        match group_find(g, a) {
            Some(j) => 0 <= j < g.len() && g[j].0 == a && forall|t: int|
                0 <= t < j ==> (#[trigger] g[t]).0 != a,
            None => forall|t: int| 0 <= t < g.len() ==> (#[trigger] g[t]).0 != a,
        },
    decreases g.len(),
{
    if g.len() > 0 && g[0].0 != a {
        lemma_group_find(g.drop_first(), a);
        assert forall|t: int| 0 < t < g.len() implies #[trigger] g[t] == g.drop_first()[t - 1] by {}
    }
}

/// Groups the options by address, groups in address order.
fn group_options(opts: &Vec<AddressOption>) -> (r: Vec<AddressGroup>)
    ensures
        groups_view(r@) == groups_of(opts@),
{
    let mut groups: Vec<AddressGroup> = Vec::new();
    let n = opts.len();
    for k in 0..n
        invariant
            n == opts@.len(),
            groups_view(groups@) == groups_of(opts@.take(k as int)),
    {
        proof {
            assert(opts@.take(k + 1).drop_last() =~= opts@.take(k as int));
            assert(opts@.take(k + 1).last() == opts@[k as int]);
        }
        let a = opts[k].address;
        let ghost g = groups_view(groups@);
        proof {
            lemma_group_find(g, a);
        }
        let mut found: Option<usize> = None;
        let m = groups.len();
        for j in 0..m
            invariant
                m == groups@.len(),
                g == groups_view(groups@),
                found is None ==> forall|t: int| 0 <= t < j ==> (#[trigger] g[t]).0 != a,
                found matches Some(x) ==> group_find(g, a) == Some(x as int),
                match group_find(g, a) {
                    Some(x) => 0 <= x < g.len() && g[x].0 == a && forall|t: int|
                        0 <= t < x ==> (#[trigger] g[t]).0 != a,
                    None => forall|t: int| 0 <= t < g.len() ==> (#[trigger] g[t]).0 != a,
                },
        {
            if found.is_none() && groups[j].address == a {
                assert(g[j as int].0 == a);
                found = Some(j);
            }
        }
        match found {
            Some(j) => {
                let mut grp = groups.remove(j);
                grp.options.push(k);
                groups.insert(j, grp);
                proof {
                    assert(groups_view(groups@) =~= g.update(j as int, (a, g[j as int].1.push(k))));
                }
            },
            None => {
                let mut p = m;
                proof {
                    assert(g.take(m as int) =~= g);
                }
                while p > 0 && !(groups[p - 1].address < a)
                    invariant
                        p <= m,
                        m == groups@.len(),
                        g == groups_view(groups@),
                        key_pos(g, a) == key_pos(g.take(p as int), a),
                    decreases p,
                {
                    proof {
                        assert(g.take(p as int).drop_last() =~= g.take(p - 1));
                    }
                    p = p - 1;
                }
                let mut ids: Vec<usize> = Vec::new();
                ids.push(k);
                let ghost ids_view = ids@;
                groups.insert(p, AddressGroup { address: a, options: ids });
                proof {
                    assert(key_pos(g.take(p as int), a) == p);
                    assert(ids_view =~= seq![k]);
                    assert(groups_view(groups@) =~= g.insert(p as int, (a, seq![k])));
                }
            },
        }
    }
    proof {
        assert(opts@.take(n as int) =~= opts@);
    }
    groups
}

/// Terms with coefficient one on the variables `ids`.
pub open spec fn unit_terms(ids: Seq<usize>) -> Seq<(usize, i64)> {
    ids.map_values(|k: usize| (k, 1i64))
}

/// Positions of the options of section `i`, ascending.
pub open spec fn ids_of_section(opts: Seq<AddressOption>, i: usize) -> Seq<usize>
    decreases opts.len(),
{
    if opts.len() == 0 {
        Seq::empty()
    } else if opts.last().section == i {
        ids_of_section(opts.drop_last(), i).push((opts.len() - 1) as usize)
    } else {
        ids_of_section(opts.drop_last(), i)
    }
}

/// Section `i` is placed at exactly one of its options.
pub open spec fn exactly_one(opts: Seq<AddressOption>, i: int) -> ConstraintView {
    ConstraintView {
        terms: unit_terms(ids_of_section(opts, i as usize)),
        relation: Relation::Equal,
        rhs: 1,
    }
}

/// The options among `ids` that belong to another section than `sec`.
pub open spec fn other_ids(opts: Seq<AddressOption>, ids: Seq<usize>, sec: usize) -> Seq<usize>
    decreases ids.len(),
{
    if ids.len() == 0 {
        Seq::empty()
    } else if opts[ids.last() as int].section != sec {
        other_ids(opts, ids.drop_last(), sec).push(ids.last())
    } else {
        other_ids(opts, ids.drop_last(), sec)
    }
}

/// Options of other sections in the first `m` groups whose address lies strictly inside
/// option `k`.
pub open spec fn clash_ids_upto(
    opts: Seq<AddressOption>,
    groups: Seq<(u64, Seq<usize>)>,
    k: usize,
    m: int,
) -> Seq<usize>
    decreases m,
{
    if m <= 0 {
        Seq::empty()
    } else {
        let prev = clash_ids_upto(opts, groups, k, m - 1);
        let g = groups[m - 1];
        let o = opts[k as int];
        if o.address < g.0 && g.0 < o.end_address {
            prev + other_ids(opts, g.1, o.section)
        } else {
            prev
        }
    }
}

/// Options of other sections whose address lies strictly inside option `k`.
pub open spec fn clash_ids(opts: Seq<AddressOption>, groups: Seq<(u64, Seq<usize>)>, k: usize) -> Seq<
    usize,
> {
    clash_ids_upto(opts, groups, k, groups.len() as int)
}

/// When option `k` is chosen, none of the options clashing with it is: the clashing options
/// plus `c + 1` times option `k` is at most `c + 1`, for `c` clashing options. No constraint
/// when nothing clashes; none at all (`None`) when `c + 1` is too large for the solver.
pub open spec fn clash_row(opts: Seq<AddressOption>, groups: Seq<(u64, Seq<usize>)>, k: usize) -> Option<
    Seq<ConstraintView>,
> {
    let c = clash_ids(opts, groups, k);
    if c.len() == 0 {
        Some(Seq::empty())
    } else if c.len() + 1 > EXACT_LIMIT {
        None
    } else {
        Some(
            seq![
                ConstraintView {
                    terms: unit_terms(c).push((k, (c.len() + 1) as i64)),
                    relation: Relation::AtMost,
                    rhs: (c.len() + 1) as i64,
                },
            ],
        )
    }
}

/// The clash constraints of the options `ids`, in order.
pub open spec fn clash_rows(opts: Seq<AddressOption>, groups: Seq<(u64, Seq<usize>)>, ids: Seq<usize>) -> Option<
    Seq<ConstraintView>,
>
    decreases ids.len(),
{
    if ids.len() == 0 {
        Some(Seq::empty())
    } else {
        match (clash_rows(opts, groups, ids.drop_last()), clash_row(opts, groups, ids.last())) {
            (Some(a), Some(b)) => Some(a + b),
            _ => None,
        }
    }
}

/// At most one of the options at one address is chosen, when there are several.
pub open spec fn restrict_row(ids: Seq<usize>) -> Seq<ConstraintView> {
    if ids.len() > 1 {
        seq![ConstraintView { terms: unit_terms(ids), relation: Relation::AtMost, rhs: 1 }]
    } else {
        Seq::empty()
    }
}

/// The constraints of the first `m` address groups, group by group.
pub open spec fn address_rows_upto(
    opts: Seq<AddressOption>,
    groups: Seq<(u64, Seq<usize>)>,
    m: int,
) -> Option<Seq<ConstraintView>>
    decreases m,
{
    if m <= 0 {
        Some(Seq::empty())
    } else {
        match (
            address_rows_upto(opts, groups, m - 1),
            clash_rows(opts, groups, groups[m - 1].1),
        ) {
            (Some(a), Some(b)) => Some(a + restrict_row(groups[m - 1].1) + b),
            _ => None,
        }
    }
}

/// The constraints of all address groups.
pub open spec fn address_rows(opts: Seq<AddressOption>, groups: Seq<(u64, Seq<usize>)>) -> Option<
    Seq<ConstraintView>,
> {
    address_rows_upto(opts, groups, groups.len() as int)
}

/// Terms with coefficient one on the variables `ids`.
fn unit_terms_exec(ids: &Vec<usize>) -> (r: Vec<(usize, i64)>)
    ensures
        r@ == unit_terms(ids@),
{
    let mut out: Vec<(usize, i64)> = Vec::new();
    let n = ids.len();
    for t in 0..n
        invariant
            n == ids@.len(),
            out@ == unit_terms(ids@.take(t as int)),
    {
        out.push((ids[t], 1));
        proof {
            assert(out@ =~= unit_terms(ids@.take(t + 1)));
        }
    }
    proof {
        assert(ids@.take(n as int) =~= ids@);
    }
    out
}

/// The exactly-one constraint of each of the first `n` sections.
fn section_rows(opts: &Vec<AddressOption>, n: usize) -> (r: Vec<Constraint>)
    ensures
        constraint_views(r@) == Seq::new(n as nat, |i: int| exactly_one(opts@, i)),
{
    let mut rows: Vec<Constraint> = Vec::new();
    let m = opts.len();
    for i in 0..n
        invariant
            m == opts@.len(),
            constraint_views(rows@) == Seq::new(i as nat, |t: int| exactly_one(opts@, t)),
    {
        let mut ids: Vec<usize> = Vec::new();
        for k in 0..m
            invariant
                m == opts@.len(),
                ids@ == ids_of_section(opts@.take(k as int), i),
        {
            proof {
                assert(opts@.take(k + 1).drop_last() =~= opts@.take(k as int));
            }
            if opts[k].section == i {
                ids.push(k);
            }
        }
        proof {
            assert(opts@.take(m as int) =~= opts@);
        }
        let terms = unit_terms_exec(&ids);
        let ghost before = rows@;
        rows.push(Constraint { terms, relation: Relation::Equal, rhs: 1 });
        proof {
            assert(rows@.last()@ == exactly_one(opts@, i as int));
            assert(constraint_views(rows@) =~= constraint_views(before).push(
                exactly_one(opts@, i as int),
            ));
            assert(constraint_views(rows@) =~= Seq::new((i + 1) as nat, |t: int| exactly_one(opts@, t)));
        }
    }
    rows
}

/// The options among `ids` that belong to another section than `sec`.
fn other_ids_exec(opts: &Vec<AddressOption>, ids: &Vec<usize>, sec: usize) -> (r: Vec<usize>)
    requires
        forall|t: int| 0 <= t < ids@.len() ==> (#[trigger] ids@[t]) < opts@.len(),
    ensures
        r@ == other_ids(opts@, ids@, sec),
{
    let mut out: Vec<usize> = Vec::new();
    let n = ids.len();
    for t in 0..n
        invariant
            n == ids@.len(),
            forall|u: int| 0 <= u < ids@.len() ==> (#[trigger] ids@[u]) < opts@.len(),
            out@ == other_ids(opts@, ids@.take(t as int), sec),
    {
        proof {
            assert(ids@.take(t + 1).drop_last() =~= ids@.take(t as int));
        }
        let id = ids[t];
        if opts[id].section != sec {
            out.push(id);
        }
    }
    proof {
        assert(ids@.take(n as int) =~= ids@);
    }
    out
}

/// Every group holds positions of options.
pub open spec fn groups_in_range(g: Seq<(u64, Seq<usize>)>, n: int) -> bool {
    forall|j: int, t: int|
        0 <= j < g.len() && 0 <= t < g[j].1.len() ==> (#[trigger] g[j].1[t]) < n
}

/// Options of other sections whose address lies strictly inside option `k`.
fn clash_ids_exec(opts: &Vec<AddressOption>, groups: &Vec<AddressGroup>, k: usize) -> (r: Vec<
    usize,
>)
    requires
        k < opts@.len(),
        groups_in_range(groups_view(groups@), opts@.len() as int),
    ensures
        r@ == clash_ids(opts@, groups_view(groups@), k),
{
    let ghost g = groups_view(groups@);
    let o = opts[k];
    let mut out: Vec<usize> = Vec::new();
    let m = groups.len();
    for j in 0..m
        invariant
            m == g.len(),
            g == groups_view(groups@),
            k < opts@.len(),
            o == opts@[k as int],
            groups_in_range(g, opts@.len() as int),
            out@ == clash_ids_upto(opts@, g, k, j as int),
    {
        let a = groups[j].address;
        if o.address < a && a < o.end_address {
            proof {
                assert forall|t: int| 0 <= t < groups@[j as int].options@.len() implies (
                #[trigger] groups@[j as int].options@[t]) < opts@.len() by {
                    assert(g[j as int].1[t] == groups@[j as int].options@[t]);
                }
            }
            let mut more = other_ids_exec(opts, &groups[j].options, o.section);
            out.append(&mut more);
        }
    }
    out
}

/// The groups of the options hold positions of options only.
proof fn lemma_groups_in_range(opts: Seq<AddressOption>)
    ensures
        groups_in_range(groups_of(opts), opts.len() as int),
    decreases opts.len(),
{
    if opts.len() > 0 {
        let g = groups_of(opts.drop_last());
        let a = opts.last().address;
        let k = (opts.len() - 1) as usize;
        lemma_groups_in_range(opts.drop_last());
        lemma_group_find(g, a);
        let r = groups_of(opts);
        assert(r == group_insert(g, a, k));
        match group_find(g, a) {
            Some(j) => {
                assert forall|x: int, t: int|
                    0 <= x < r.len() && 0 <= t < r[x].1.len() implies (#[trigger] r[x].1[t])
                    < opts.len() by {
                    if x == j {
                        if t < g[j].1.len() {
                            assert(r[x].1[t] == g[j].1[t]);
                        }
                    } else {
                        assert(r[x] == g[x]);
                    }
                }
            },
            None => {
                let p = key_pos(g, a);
                lemma_key_pos_range(g, a);
                assert forall|x: int, t: int|
                    0 <= x < r.len() && 0 <= t < r[x].1.len() implies (#[trigger] r[x].1[t])
                    < opts.len() by {
                    if x < p {
                        assert(r[x] == g[x]);
                    } else if x > p {
                        assert(r[x] == g[x - 1]);
                    }
                }
            },
        }
    }
}

/// Every group holds options at its address.
pub open spec fn groups_keyed(g: Seq<(u64, Seq<usize>)>, opts: Seq<AddressOption>) -> bool {
    forall|j: int, t: int|
        0 <= j < g.len() && 0 <= t < g[j].1.len() ==> opts[(#[trigger] g[j].1[t]) as int].address
            == g[j].0
}

/// The groups of the options hold options at their address.
proof fn lemma_groups_keyed(opts: Seq<AddressOption>)
    requires
        opts.len() <= usize::MAX,
    ensures
        groups_keyed(groups_of(opts), opts),
    decreases opts.len(),
{
    if opts.len() > 0 {
        let prefix = opts.drop_last();
        let g = groups_of(prefix);
        let a = opts.last().address;
        let k = (opts.len() - 1) as usize;
        lemma_groups_keyed(prefix);
        lemma_groups_in_range(prefix);
        lemma_group_find(g, a);
        let r = groups_of(opts);
        assert(r == group_insert(g, a, k));
        match group_find(g, a) {
            Some(j) => {
                assert forall|x: int, t: int|
                    0 <= x < r.len() && 0 <= t < r[x].1.len() implies opts[(#[trigger] r[x].1[
                    t]) as int].address == r[x].0 by {
                    if x == j {
                        if t < g[j].1.len() {
                            assert(r[x].1[t] == g[j].1[t]);
                            assert(opts[g[j].1[t] as int] == prefix[g[j].1[t] as int]);
                        } else {
                            assert(r[x].1[t] == k);
                        }
                    } else {
                        assert(r[x] == g[x]);
                        assert(opts[g[x].1[t] as int] == prefix[g[x].1[t] as int]);
                    }
                }
            },
            None => {
                let p = key_pos(g, a);
                lemma_key_pos_range(g, a);
                assert forall|x: int, t: int|
                    0 <= x < r.len() && 0 <= t < r[x].1.len() implies opts[(#[trigger] r[x].1[
                    t]) as int].address == r[x].0 by {
                    if x < p {
                        assert(r[x] == g[x]);
                        assert(opts[g[x].1[t] as int] == prefix[g[x].1[t] as int]);
                    } else if x > p {
                        assert(r[x] == g[x - 1]);
                        assert(opts[g[x - 1].1[t] as int] == prefix[g[x - 1].1[t] as int]);
                    } else {
                        assert(r[x] == (a, seq![k]));
                        assert(r[x].1[t] == k);
                    }
                }
            },
        }
    }
}

/// An option of group `j` lies at the group's address.
proof fn lemma_group_address(opts: Seq<AddressOption>, g: Seq<(u64, Seq<usize>)>, j: int, t: int)
    requires
        groups_keyed(g, opts),
        0 <= j < g.len(),
        0 <= t < g[j].1.len(),
    ensures
        opts[g[j].1[t] as int].address == g[j].0,
{
}

/// The insertion position lies within the groups.
proof fn lemma_key_pos_range(g: Seq<(u64, Seq<usize>)>, a: u64)
    ensures
        0 <= key_pos(g, a) <= g.len(),
    decreases g.len(),
{
    if g.len() > 0 {
        lemma_key_pos_range(g.drop_last(), a);
    }
}

/// The clash constraints of the options `ids`, in order.
fn clash_rows_exec(opts: &Vec<AddressOption>, groups: &Vec<AddressGroup>, ids: &Vec<usize>) -> (r:
    Option<Vec<Constraint>>)
    requires
        groups_in_range(groups_view(groups@), opts@.len() as int),
        forall|t: int| 0 <= t < ids@.len() ==> (#[trigger] ids@[t]) < opts@.len(),
    ensures
        match (r, clash_rows(opts@, groups_view(groups@), ids@)) {
            (Some(v), Some(w)) => constraint_views(v@) == w,
            (None, None) => true,
            _ => false,
        },
{
    let ghost g = groups_view(groups@);
    let mut rows: Vec<Constraint> = Vec::new();
    let n = ids.len();
    for t in 0..n
        invariant
            n == ids@.len(),
            g == groups_view(groups@),
            groups_in_range(g, opts@.len() as int),
            forall|u: int| 0 <= u < ids@.len() ==> (#[trigger] ids@[u]) < opts@.len(),
            clash_rows(opts@, g, ids@.take(t as int)) == Some(constraint_views(rows@)),
    {
        proof {
            assert(ids@.take(t + 1).drop_last() =~= ids@.take(t as int));
            assert(ids@.take(t + 1).last() == ids@[t as int]);
        }
        let k = ids[t];
        let c = clash_ids_exec(opts, groups, k);
        let len = c.len();
        if len > 0 {
            if len as u64 >= EXACT_LIMIT {
                proof {
                    lemma_clash_rows_none(opts@, g, ids@, t + 1);
                }
                return None;
            }
            let weight: i64 = (len as u64 + 1) as i64;
            let mut terms = unit_terms_exec(&c);
            terms.push((k, weight));
            let ghost terms_view = terms@;
            let ghost before = rows@;
            rows.push(Constraint { terms, relation: Relation::AtMost, rhs: weight });
            proof {
                assert(terms_view == unit_terms(c@).push((k, (len + 1) as i64)));
                assert(constraint_views(rows@) =~= constraint_views(before) + clash_row(
                    opts@,
                    g,
                    k,
                ).unwrap());
            }
        } else {
            proof {
                assert(constraint_views(rows@) =~= constraint_views(rows@) + clash_row(
                    opts@,
                    g,
                    k,
                ).unwrap());
            }
        }
    }
    proof {
        assert(ids@.take(n as int) =~= ids@);
    }
    Some(rows)
}

/// A clash constraint that is too large for a prefix of the options is too large for all.
proof fn lemma_clash_rows_none(
    opts: Seq<AddressOption>,
    groups: Seq<(u64, Seq<usize>)>,
    ids: Seq<usize>,
    m: int,
)
    requires
        0 <= m <= ids.len(),
        clash_rows(opts, groups, ids.take(m)) is None,
    ensures
        clash_rows(opts, groups, ids) is None,
    decreases ids.len() - m,
{
    if m == ids.len() {
        assert(ids.take(m) =~= ids);
    } else {
        assert(ids.take(m + 1).drop_last() =~= ids.take(m));
        lemma_clash_rows_none(opts, groups, ids, m + 1);
    }
}

/// A failure in the constraints of some groups is a failure for all.
proof fn lemma_address_rows_none(opts: Seq<AddressOption>, groups: Seq<(u64, Seq<usize>)>, m: int)
    requires
        0 <= m <= groups.len(),
        address_rows_upto(opts, groups, m) is None,
    ensures
        address_rows(opts, groups) is None,
    decreases groups.len() - m,
{
    if m < groups.len() {
        lemma_address_rows_none(opts, groups, m + 1);
    }
}

/// The constraints of all address groups, group by group.
fn address_rows_exec(opts: &Vec<AddressOption>, groups: &Vec<AddressGroup>) -> (r: Option<
    Vec<Constraint>,
>)
    requires
        groups_in_range(groups_view(groups@), opts@.len() as int),
    ensures
        match (r, address_rows(opts@, groups_view(groups@))) {
            (Some(v), Some(w)) => constraint_views(v@) == w,
            (None, None) => true,
            _ => false,
        },
{
    let ghost g = groups_view(groups@);
    let mut rows: Vec<Constraint> = Vec::new();
    let m = groups.len();
    for j in 0..m
        invariant
            m == g.len(),
            g == groups_view(groups@),
            groups_in_range(g, opts@.len() as int),
            address_rows_upto(opts@, g, j as int) == Some(constraint_views(rows@)),
    {
        let ids = &groups[j].options;
        proof {
            assert(ids@ == g[j as int].1);
            assert forall|t: int| 0 <= t < ids@.len() implies (#[trigger] ids@[t]) < opts@.len() by {
                assert(g[j as int].1[t] == ids@[t]);
            }
        }
        let ghost before = constraint_views(rows@);
        if ids.len() > 1 {
            let terms = unit_terms_exec(ids);
            rows.push(Constraint { terms, relation: Relation::AtMost, rhs: 1 });
            proof {
                assert(constraint_views(rows@) =~= before + restrict_row(ids@));
            }
        } else {
            proof {
                assert(constraint_views(rows@) =~= before + restrict_row(ids@));
            }
        }
        match clash_rows_exec(opts, groups, ids) {
            None => {
                proof {
                    lemma_address_rows_none(opts@, g, j + 1);
                }
                return None;
            },
            Some(mut more) => {
                let ghost mid = constraint_views(rows@);
                let ghost more_view = constraint_views(more@);
                rows.append(&mut more);
                proof {
                    assert(constraint_views(rows@) =~= mid + more_view);
                }
            },
        }
    }
    Some(rows)
}

/// The problem placing sections, with the options its variables stand for and the options
/// grouped by address.
#[derive(Debug, Clone, PartialEq)]
pub struct PlacementModel {
    /// The problem for the solver; variable `k` chooses option `k`.
    pub problem: LinearProblem,
    /// The options, by variable position.
    pub options: Vec<AddressOption>,
    /// The options grouped by address, groups in address order.
    pub groups: Vec<AddressGroup>,
}

/// The variables of the placement problem: one binary per option, costing its address.
pub open spec fn placement_vars(opts: Seq<AddressOption>) -> Seq<Variable> {
    opts.map_values(|o: AddressOption| Variable { cost: o.address as i64, kind: VarKind::Binary })
}

/// The problem placing the sections `secs` in the regions `bs`: each section at exactly one of
/// its options, no two sections at one address, no section starting inside another, the
/// lowest addresses preferred, within a time budget of 100 ms.
pub open spec fn placement_spec(secs: Seq<SectionView>, bs: Seq<MemoryBin>) -> Result<
    ProblemView,
    BuildFailure,
> {
    if bs.len() == 0 {
        Err(BuildFailure::Rejected(SolverError::NoAllocationRegions))
    } else {
        match all_options(secs, bs) {
            Err(e) => Err(e),
            Ok(opts) => match address_rows(opts, groups_of(opts)) {
                None => Err(BuildFailure::Rejected(SolverError::TooManyFlashPages)),
                Some(rows) => Ok(
                    ProblemView {
                        sense: Sense::Minimize,
                        time_limit_ms: Some(100),
                        variables: placement_vars(opts),
                        constraints: Seq::new(secs.len(), |i: int| exactly_one(opts, i)) + rows,
                    },
                ),
            },
        }
    }
}

/// The model of a placement problem is the one built from the sections and regions.
pub open spec fn model_of(m: PlacementModel, secs: Seq<SectionView>, bs: Seq<MemoryBin>) -> bool {
    &&& all_options(secs, bs) == Ok::<Seq<AddressOption>, BuildFailure>(m.options@)
    &&& groups_view(m.groups@) == groups_of(m.options@)
    &&& placement_spec(secs, bs) == Ok::<ProblemView, BuildFailure>(m.problem@)
}

/// Builds the problem placing `sections` in the regions `bins`.
pub fn placement_problem<MetaData: Clone>(sections: &Vec<Section<MetaData>>, bins: &Bin) -> (r:
    Result<PlacementModel, BuildFailure>)
    requires
        forall|k: int| 0 <= k < bins@.len() ==> (#[trigger] bins@[k]).page_size > 0,
    ensures
        match r {
            Ok(m) => model_of(m, section_views(sections@), bins@),
            Err(e) => placement_spec(section_views(sections@), bins@) == Err::<
                ProblemView,
                BuildFailure,
            >(e),
        },
{
    let ghost secs = section_views(sections@);
    if bins.is_empty() {
        return Err(BuildFailure::Rejected(SolverError::NoAllocationRegions));
    }
    let options = match all_options_exec(sections, bins) {
        Ok(o) => o,
        Err(e) => {
            return Err(e);
        },
    };
    let groups = group_options(&options);
    proof {
        lemma_groups_in_range(options@);
    }
    let mut constraints = section_rows(&options, sections.len());
    let ghost first = constraint_views(constraints@);
    match address_rows_exec(&options, &groups) {
        None => {
            return Err(BuildFailure::Rejected(SolverError::TooManyFlashPages));
        },
        Some(mut rows) => {
            let ghost rest = constraint_views(rows@);
            constraints.append(&mut rows);
            proof {
                assert(constraint_views(constraints@) =~= first + rest);
            }
        },
    }
    let mut variables: Vec<Variable> = Vec::new();
    let n = options.len();
    for k in 0..n
        invariant
            n == options@.len(),
            variables@ == placement_vars(options@.take(k as int)),
    {
        variables.push(Variable { cost: options[k].address as i64, kind: VarKind::Binary });
        proof {
            assert(variables@ =~= placement_vars(options@.take(k + 1)));
        }
    }
    proof {
        assert(options@.take(n as int) =~= options@);
    }
    let problem = LinearProblem {
        sense: Sense::Minimize,
        time_limit_ms: Some(100),
        variables,
        constraints,
    };
    Ok(PlacementModel { problem, options, groups })
}

/// The options among `ids` the solution chose, in order.
pub open spec fn positive_ids(ids: Seq<usize>, values: Seq<SolvedValue>) -> Seq<usize>
    decreases ids.len(),
{
    if ids.len() == 0 {
        Seq::empty()
    } else if values[ids.last() as int].positive {
        positive_ids(ids.drop_last(), values).push(ids.last())
    } else {
        positive_ids(ids.drop_last(), values)
    }
}

/// The chosen options of the first `m` groups, group by group.
pub open spec fn chosen_upto(groups: Seq<(u64, Seq<usize>)>, values: Seq<SolvedValue>, m: int) -> Seq<
    usize,
>
    decreases m,
{
    if m <= 0 {
        Seq::empty()
    } else {
        chosen_upto(groups, values, m - 1) + positive_ids(groups[m - 1].1, values)
    }
}

/// The chosen options, in address order.
pub open spec fn chosen(groups: Seq<(u64, Seq<usize>)>, values: Seq<SolvedValue>) -> Seq<usize> {
    chosen_upto(groups, values, groups.len() as int)
}

/// The placement of option `o` of the sections `secs`.
pub open spec fn option_placement(secs: Seq<SectionView>, o: AddressOption) -> Placement {
    Placement {
        name: secs[o.section as int].name,
        pages: o.pages,
        size: if o.end_address >= o.address {
            (o.end_address - o.address) as u64
        } else {
            0
        },
        address: o.address,
        linker_name: secs[o.section as int].effective_linker_name(),
    }
}

/// The placements of the chosen options, in address order.
pub open spec fn chosen_placements(
    secs: Seq<SectionView>,
    opts: Seq<AddressOption>,
    groups: Seq<(u64, Seq<usize>)>,
    values: Seq<SolvedValue>,
) -> Seq<Placement> {
    chosen(groups, values).map_values(|k: usize| option_placement(secs, opts[k as int]))
}

/// Every option belongs to one of the sections and ends no earlier than it starts.
pub open spec fn options_wf(opts: Seq<AddressOption>, n: int) -> bool {
    forall|k: int|
        0 <= k < opts.len() ==> (#[trigger] opts[k]).section < n && opts[k].address
            <= opts[k].end_address
}

/// Each resolved section of `out` carries a clone of the metadata of the section whose
/// option `c` chose at its position.
pub open spec fn metadata_from<MetaData: Clone>(
    sections: Seq<Section<MetaData>>,
    opts: Seq<AddressOption>,
    c: Seq<usize>,
    out: Seq<ResolvedSection<MetaData>>,
) -> bool {
    &&& out.len() == c.len()
    &&& forall|q: int|
        0 <= q < out.len() ==> cloned(
            sections[opts[#[trigger] c[q] as int].section as int].spec_metadata(),
            out[q].metadata,
        )
}

/// The sections placed by a solution, in address order.
pub fn extract_placements<MetaData: Clone>(
    sections: &Vec<Section<MetaData>>,
    options: &Vec<AddressOption>,
    groups: &Vec<AddressGroup>,
    values: &Vec<SolvedValue>,
) -> (r: Vec<ResolvedSection<MetaData>>)
    requires
        values@.len() == options@.len(),
        groups_in_range(groups_view(groups@), options@.len() as int),
        groups_keyed(groups_view(groups@), options@),
        options_wf(options@, sections@.len() as int),
    ensures
        r@.map_values(|x: ResolvedSection<MetaData>| placement_of(x)) == chosen_placements(
            section_views(sections@),
            options@,
            groups_view(groups@),
            values@,
        ),
        metadata_from(sections@, options@, chosen(groups_view(groups@), values@), r@),
{
    let ghost secs = section_views(sections@);
    let ghost g = groups_view(groups@);
    let ghost opts = options@;
    let mut out: Vec<ResolvedSection<MetaData>> = Vec::new();
    let m = groups.len();
    for j in 0..m
        invariant
            m == g.len(),
            g == groups_view(groups@),
            opts == options@,
            secs == section_views(sections@),
            values@.len() == opts.len(),
            groups_in_range(g, opts.len() as int),
            groups_keyed(g, opts),
            options_wf(opts, sections@.len() as int),
            out@.map_values(|x: ResolvedSection<MetaData>| placement_of(x)) == chosen_upto(
                g,
                values@,
                j as int,
            ).map_values(|k: usize| option_placement(secs, opts[k as int])),
            metadata_from(sections@, opts, chosen_upto(g, values@, j as int), out@),
    {
        let ids = &groups[j].options;
        let address = groups[j].address;
        let n = ids.len();
        let ghost base = chosen_upto(g, values@, j as int);
        proof {
            assert(ids@ == g[j as int].1);
        }
        for t in 0..n
            invariant
                n == ids@.len(),
                ids@ == g[j as int].1,
                g == groups_view(groups@),
                opts == options@,
                secs == section_views(sections@),
                values@.len() == opts.len(),
                groups_in_range(g, opts.len() as int),
                groups_keyed(g, opts),
                options_wf(opts, sections@.len() as int),
                0 <= j < g.len(),
                address == g[j as int].0,
                out@.map_values(|x: ResolvedSection<MetaData>| placement_of(x)) == (base
                    + positive_ids(ids@.take(t as int), values@)).map_values(
                    |k: usize| option_placement(secs, opts[k as int]),
                ),
                metadata_from(sections@, opts, base + positive_ids(ids@.take(t as int), values@), out@),
        {
            proof {
                assert(ids@.take(t + 1).drop_last() =~= ids@.take(t as int));
                assert(g[j as int].1[t as int] == ids@[t as int]);
            }
            let k = ids[t];
            if values[k].positive {
                let o = options[k];
                let section = &sections[o.section];
                let size = if o.end_address >= address {
                    o.end_address - address
                } else {
                    0
                };
                let rs = ResolvedSection::new(
                    section.name.clone(),
                    o.pages,
                    size,
                    address,
                    section.linker_name_override_owned(),
                    section.metadata().clone(),
                );
                let ghost before = out@;
                out.push(rs);
                proof {
                    let cur = base + positive_ids(ids@.take(t + 1), values@);
                    assert(base + positive_ids(ids@.take(t + 1), values@) =~= (base
                        + positive_ids(ids@.take(t as int), values@)).push(k));
                    assert forall|q: int| 0 <= q < out@.len() implies cloned(
                        sections@[opts[#[trigger] cur[q] as int].section as int].spec_metadata(),
                        out@[q].metadata,
                    ) by {
                        if q < before.len() {
                            assert(out@[q] == before[q]);
                        }
                    }
                    assert(secs[o.section as int] == sections@[o.section as int]@);
                    assert(address == o.address) by {
                        lemma_group_address(opts, g, j as int, t as int);
                    }
                    assert(placement_of(rs) == option_placement(secs, opts[k as int]));
                    assert(base + positive_ids(ids@.take(t + 1), values@) =~= (base
                        + positive_ids(ids@.take(t as int), values@)).push(k));
                    assert(out@.map_values(|x: ResolvedSection<MetaData>| placement_of(x))
                        =~= before.map_values(|x: ResolvedSection<MetaData>| placement_of(x)).push(
                        placement_of(rs),
                    ));
                }
            } else {
                proof {
                    assert(base + positive_ids(ids@.take(t + 1), values@) =~= base
                        + positive_ids(ids@.take(t as int), values@));
                }
            }
        }
        proof {
            assert(ids@.take(n as int) =~= ids@);
            assert(chosen_upto(g, values@, j + 1) == base + positive_ids(ids@, values@));
        }
    }
    out
}

/// The groups are in strictly increasing address order, each holds increasing positions of
/// options at its address, and every option is in one of them.
pub open spec fn groups_sound(g: Seq<(u64, Seq<usize>)>, opts: Seq<AddressOption>) -> bool {
    &&& forall|i: int, j: int| 0 <= i < j < g.len() ==> #[trigger] g[i].0 < #[trigger] g[j].0
    &&& forall|j: int, t1: int, t2: int|
        0 <= j < g.len() && 0 <= t1 < t2 < g[j].1.len() ==> #[trigger] g[j].1[t1]
            < #[trigger] g[j].1[t2]
    &&& groups_in_range(g, opts.len() as int)
    &&& groups_keyed(g, opts)
    &&& forall|k: int| 0 <= k < opts.len() ==> #[trigger] holds_option(g, k)
}

/// Some group holds option `k`.
pub open spec fn holds_option(g: Seq<(u64, Seq<usize>)>, k: int) -> bool {
    exists|j: int, t: int| 0 <= j < g.len() && 0 <= t < g[j].1.len() && g[j].1[t] == k
}

/// Where a new address goes in strictly increasing groups that do not hold it.
proof fn lemma_key_pos_split(g: Seq<(u64, Seq<usize>)>, a: u64)
    requires
        forall|i: int, j: int| 0 <= i < j < g.len() ==> #[trigger] g[i].0 < #[trigger] g[j].0,
        forall|t: int| 0 <= t < g.len() ==> (#[trigger] g[t]).0 != a,
    ensures
        0 <= key_pos(g, a) <= g.len(),
        forall|t: int| 0 <= t < key_pos(g, a) ==> (#[trigger] g[t]).0 < a,
        forall|t: int| key_pos(g, a) <= t < g.len() ==> (#[trigger] g[t]).0 > a,
    decreases g.len(),
{
    if g.len() > 0 {
        let d = g.drop_last();
        lemma_key_pos_split(d, a);
        if g.last().0 < a {
            assert forall|t: int| 0 <= t < g.len() implies (#[trigger] g[t]).0 < a by {
                if t < g.len() - 1 {
                    assert(g[t].0 < g[g.len() - 1].0);
                }
            }
        } else {
            assert forall|t: int| 0 <= t < key_pos(g, a) implies (#[trigger] g[t]).0 < a by {
                assert(g[t] == d[t]);
            }
            assert forall|t: int| key_pos(g, a) <= t < g.len() implies (#[trigger] g[t]).0 > a by {
                if t < g.len() - 1 {
                    assert(g[t] == d[t]);
                }
            }
        }
    }
}

/// The groups of the options are sound.
pub proof fn lemma_groups_sound(opts: Seq<AddressOption>)
    requires
        opts.len() <= usize::MAX,
    ensures
        groups_sound(groups_of(opts), opts),
    decreases opts.len(),
{
    lemma_groups_in_range(opts);
    lemma_groups_keyed(opts);
    if opts.len() > 0 {
        let prefix = opts.drop_last();
        let g = groups_of(prefix);
        let a = opts.last().address;
        let k = (opts.len() - 1) as usize;
        lemma_groups_sound(prefix);
        lemma_group_find(g, a);
        let r = groups_of(opts);
        assert(r == group_insert(g, a, k));
        match group_find(g, a) {
            Some(j) => {
                assert(r.len() == g.len());
                assert forall|x: int, y: int| 0 <= x < y < r.len() implies #[trigger] r[x].0
                    < #[trigger] r[y].0 by {
                    assert(r[x].0 == g[x].0 && r[y].0 == g[y].0);
                }
                assert forall|x: int, t1: int, t2: int|
                    0 <= x < r.len() && 0 <= t1 < t2 < r[x].1.len() implies #[trigger] r[x].1[t1]
                    < #[trigger] r[x].1[t2] by {
                    if x == j {
                        assert(r[x].1 == g[j].1.push(k));
                        assert(g[j].1[t1] < prefix.len());
                        if t2 < g[j].1.len() {
                            assert(g[j].1[t1] < g[j].1[t2]);
                        }
                    } else {
                        assert(r[x] == g[x]);
                    }
                }
                assert forall|q: int| 0 <= q < opts.len() implies #[trigger] holds_option(r, q) by {
                    if q == opts.len() - 1 {
                        assert(r[j].1[g[j].1.len() as int] == k);
                    } else {
                        assert(holds_option(g, q));
                        let (x, t) = choose|x: int, t: int|
                            0 <= x < g.len() && 0 <= t < g[x].1.len() && g[x].1[t] == q;
                        if x == j {
                            assert(r[x].1[t] == g[x].1[t]);
                        } else {
                            assert(r[x] == g[x]);
                        }
                    }
                }
            },
            None => {
                lemma_key_pos_split(g, a);
                let p = key_pos(g, a);
                assert(r == g.insert(p, (a, seq![k])));
                assert forall|x: int, y: int| 0 <= x < y < r.len() implies #[trigger] r[x].0
                    < #[trigger] r[y].0 by {
                    let gx = if x < p {
                        x
                    } else {
                        x - 1
                    };
                    let gy = if y < p {
                        y
                    } else {
                        y - 1
                    };
                    if x < p {
                        assert(r[x] == g[x]);
                    }
                    if x > p {
                        assert(r[x] == g[x - 1]);
                    }
                    if y < p {
                        assert(r[y] == g[y]);
                    }
                    if y > p {
                        assert(r[y] == g[y - 1]);
                    }
                    if x != p && y != p {
                        assert(g[gx].0 < g[gy].0);
                    }
                }
                assert forall|x: int, t1: int, t2: int|
                    0 <= x < r.len() && 0 <= t1 < t2 < r[x].1.len() implies #[trigger] r[x].1[t1]
                    < #[trigger] r[x].1[t2] by {
                    if x < p {
                        assert(r[x] == g[x]);
                    } else if x > p {
                        assert(r[x] == g[x - 1]);
                    }
                }
                assert forall|q: int| 0 <= q < opts.len() implies #[trigger] holds_option(r, q) by {
                    if q == opts.len() - 1 {
                        assert(r[p].1[0] == k);
                    } else {
                        assert(holds_option(g, q));
                        let (x, t) = choose|x: int, t: int|
                            0 <= x < g.len() && 0 <= t < g[x].1.len() && g[x].1[t] == q;
                        if x < p {
                            assert(r[x] == g[x]);
                        } else {
                            assert(r[x + 1] == g[x]);
                        }
                    }
                }
            },
        }
    }
}

/// Every option of `v` belongs to section `i` and ends no earlier than it starts.
pub open spec fn options_of(v: Seq<AddressOption>, i: usize) -> bool {
    forall|k: int|
        0 <= k < v.len() ==> (#[trigger] v[k]).section == i && v[k].address <= v[k].end_address
}

proof fn lemma_scan_options(s: SectionView, i: usize, b: MemoryBin, align: u64, a: u64)
    ensures
        scan(s, i, b, align, a) matches Ok(v) ==> options_of(v, i),
    decreases
            (if a < b.end_address {
                b.end_address - a
            } else {
                0
            }),
{
    if !(a >= b.end_address || !b.fits_at(a, s) || align == 0) {
        let next = round_up(a + 1, align as int);
        assert(next >= a + 1) by (nonlinear_arith)
            requires
                next == round_up(a + 1, align as int),
                align > 0,
        {
            assert((a + 1) % (align as int) < align);
        }
        if next <= u64::MAX {
            lemma_scan_options(s, i, b, align, next as u64);
            if let Ok(v) = scan(s, i, b, align, a) {
                let here = if s.address is None || s.address == Some(a) {
                    make_option(s, i, b, a)
                } else {
                    Ok(Seq::empty())
                };
                let rest = scan(s, i, b, align, next as u64)->Ok_0;
                let h = here->Ok_0;
                assert(v == h + rest);
                assert forall|k: int| 0 <= k < v.len() implies (#[trigger] v[k]).section == i
                    && v[k].address <= v[k].end_address by {
                    if k < h.len() {
                        assert(v[k] == h[k]);
                    } else {
                        assert(v[k] == rest[k - h.len()]);
                    }
                }
            }
        }
    }
}

proof fn lemma_bins_options(s: SectionView, i: usize, bs: Seq<MemoryBin>)
    ensures
        bins_options(s, i, bs) matches Ok(v) ==> options_of(v, i),
    decreases bs.len(),
{
    if bs.len() > 0 {
        lemma_bins_options(s, i, bs.drop_last());
        let b = bs.last();
        let align = alignment(s, b);
        if align != 0 {
            let a0 = round_up(b.start_address as int, align as int);
            if a0 <= u64::MAX {
                lemma_scan_options(s, i, b, align, a0 as u64);
            }
        }
        if let Ok(v) = bins_options(s, i, bs) {
            let o = bins_options(s, i, bs.drop_last())->Ok_0;
            let o2 = bin_options(s, i, b)->Ok_0;
            assert(v == o + o2);
            assert forall|k: int| 0 <= k < v.len() implies (#[trigger] v[k]).section == i
                && v[k].address <= v[k].end_address by {
                if k < o.len() {
                    assert(v[k] == o[k]);
                } else {
                    assert(v[k] == o2[k - o.len()]);
                }
            }
        }
    }
}

/// Every option belongs to one of the sections and ends no earlier than it starts.
pub proof fn lemma_all_options_wf(secs: Seq<SectionView>, bs: Seq<MemoryBin>)
    requires
        secs.len() <= usize::MAX,
    ensures
        all_options(secs, bs) matches Ok(v) ==> options_wf(v, secs.len() as int),
    decreases secs.len(),
{
    if secs.len() > 0 {
        let i = (secs.len() - 1) as usize;
        lemma_all_options_wf(secs.drop_last(), bs);
        lemma_bins_options(secs.last(), i, bs);
        if let Ok(v) = all_options(secs, bs) {
            let o = all_options(secs.drop_last(), bs)->Ok_0;
            let o2 = section_options(secs.last(), i, bs)->Ok_0;
            assert(options_of(o2, i));
            assert(v == o + o2);
            assert forall|k: int| 0 <= k < v.len() implies (#[trigger] v[k]).section < secs.len()
                && v[k].address <= v[k].end_address by {
                if k < o.len() {
                    assert(v[k] == o[k]);
                } else {
                    assert(v[k] == o2[k - o.len()]);
                }
            }
        }
    }
}

/// Every entry of `x` is zero or one.
pub open spec fn binary(x: Seq<int>) -> bool {
    forall|k: int| 0 <= k < x.len() ==> #[trigger] x[k] == 0 || x[k] == 1
}

/// Every position of `ids` is a position of `x`.
pub open spec fn ids_below(ids: Seq<usize>, n: int) -> bool {
    forall|t: int| 0 <= t < ids.len() ==> (#[trigger] ids[t]) < n
}

/// A sum of zero-or-one values is at least any of them, and at least any two of them.
proof fn lemma_unit_sum(ids: Seq<usize>, x: Seq<int>)
    requires
        binary(x),
        ids_below(ids, x.len() as int),
    ensures
        terms_value(unit_terms(ids), x) >= 0,
        forall|u: int| 0 <= u < ids.len() ==> terms_value(unit_terms(ids), x) >= x[#[trigger] ids[u] as int],
        forall|u: int, v: int|
            0 <= u < ids.len() && 0 <= v < ids.len() && u != v ==> terms_value(unit_terms(ids), x)
                >= x[#[trigger] ids[u] as int] + x[#[trigger] ids[v] as int],
    decreases ids.len(),
{
    if ids.len() > 0 {
        let d = ids.drop_last();
        assert(unit_terms(ids).drop_last() =~= unit_terms(d));
        assert(ids_below(d, x.len() as int)) by {
            assert forall|t: int| 0 <= t < d.len() implies (#[trigger] d[t]) < x.len() by {
                assert(d[t] == ids[t]);
            }
        }
        lemma_unit_sum(d, x);
        let last = ids.last();
        assert(unit_terms(ids).last() == (last, 1i64));
        assert(terms_value(unit_terms(ids), x) == terms_value(unit_terms(d), x) + x[last as int]);
        assert(x[last as int] == 0 || x[last as int] == 1);
        assert forall|u: int| 0 <= u < ids.len() implies terms_value(unit_terms(ids), x)
            >= x[#[trigger] ids[u] as int] by {
            if u < d.len() {
                assert(ids[u] == d[u]);
                assert(x[d[u] as int] == 0 || x[d[u] as int] == 1);
            }
        }
        assert forall|u: int, v: int|
            0 <= u < ids.len() && 0 <= v < ids.len() && u != v implies terms_value(
            unit_terms(ids),
            x,
        ) >= x[#[trigger] ids[u] as int] + x[#[trigger] ids[v] as int] by {
            if u < d.len() && v < d.len() {
                assert(ids[u] == d[u] && ids[v] == d[v]);
            } else if u < d.len() {
                assert(ids[u] == d[u]);
                assert(x[d[u] as int] == 0 || x[d[u] as int] == 1);
            } else {
                assert(ids[v] == d[v]);
                assert(x[d[v] as int] == 0 || x[d[v] as int] == 1);
            }
        }
    }
}

/// Option `k` is among the options of its section.
proof fn lemma_ids_of_section(opts: Seq<AddressOption>, i: usize, k: int)
    requires
        0 <= k < opts.len(),
        opts[k].section == i,
        opts.len() <= usize::MAX,
    ensures
        exists|u: int|
            0 <= u < ids_of_section(opts, i).len() && #[trigger] ids_of_section(opts, i)[u]
                == k as usize,
        ids_below(ids_of_section(opts, i), opts.len() as int),
    decreases opts.len(),
{
    lemma_ids_of_section_below(opts, i);
    let d = opts.drop_last();
    if k < opts.len() - 1 {
        assert(d[k] == opts[k]);
        lemma_ids_of_section(d, i, k);
        let u = choose|u: int|
            0 <= u < ids_of_section(d, i).len() && #[trigger] ids_of_section(d, i)[u] == k as usize;
        assert(ids_of_section(opts, i)[u] == k as usize);
    } else {
        assert(ids_of_section(opts, i) == ids_of_section(d, i).push(k as usize));
        assert(ids_of_section(opts, i)[ids_of_section(d, i).len() as int] == k as usize);
    }
}

/// The options of a section are positions of options.
proof fn lemma_ids_of_section_below(opts: Seq<AddressOption>, i: usize)
    requires
        opts.len() <= usize::MAX,
    ensures
        ids_below(ids_of_section(opts, i), opts.len() as int),
    decreases opts.len(),
{
    if opts.len() > 0 {
        let d = opts.drop_last();
        lemma_ids_of_section_below(d, i);
        let ids = ids_of_section(opts, i);
        assert forall|t: int| 0 <= t < ids.len() implies (#[trigger] ids[t]) < opts.len() by {
            if t < ids_of_section(d, i).len() {
                assert(ids[t] == ids_of_section(d, i)[t]);
            }
        }
    }
}

/// The options of other sections among `ids` include those that are of another section.
proof fn lemma_other_ids(opts: Seq<AddressOption>, ids: Seq<usize>, sec: usize, t: int)
    requires
        0 <= t < ids.len(),
        ids_below(ids, opts.len() as int),
        opts[ids[t] as int].section != sec,
    ensures
        exists|u: int|
            0 <= u < other_ids(opts, ids, sec).len() && #[trigger] other_ids(opts, ids, sec)[u]
                == ids[t],
    decreases ids.len(),
{
    let d = ids.drop_last();
    if t < ids.len() - 1 {
        assert(d[t] == ids[t]);
        assert(ids_below(d, opts.len() as int)) by {
            assert forall|q: int| 0 <= q < d.len() implies (#[trigger] d[q]) < opts.len() by {
                assert(d[q] == ids[q]);
            }
        }
        lemma_other_ids(opts, d, sec, t);
        let u = choose|u: int|
            0 <= u < other_ids(opts, d, sec).len() && #[trigger] other_ids(opts, d, sec)[u] == d[t];
        if opts[ids.last() as int].section != sec {
            assert(other_ids(opts, ids, sec)[u] == other_ids(opts, d, sec)[u]);
        } else {
            assert(other_ids(opts, ids, sec) == other_ids(opts, d, sec));
        }
        assert(other_ids(opts, ids, sec)[u] == ids[t]);
    } else {
        assert(other_ids(opts, ids, sec) == other_ids(opts, d, sec).push(ids.last()));
        assert(other_ids(opts, ids, sec)[other_ids(opts, d, sec).len() as int] == ids[t]);
    }
}

/// The options among `ids` of other sections are positions of options.
proof fn lemma_other_ids_below(opts: Seq<AddressOption>, ids: Seq<usize>, sec: usize)
    requires
        ids_below(ids, opts.len() as int),
    ensures
        ids_below(other_ids(opts, ids, sec), opts.len() as int),
    decreases ids.len(),
{
    if ids.len() > 0 {
        let d = ids.drop_last();
        assert(ids_below(d, opts.len() as int)) by {
            assert forall|q: int| 0 <= q < d.len() implies (#[trigger] d[q]) < opts.len() by {
                assert(d[q] == ids[q]);
            }
        }
        lemma_other_ids_below(opts, d, sec);
        let o = other_ids(opts, ids, sec);
        assert forall|q: int| 0 <= q < o.len() implies (#[trigger] o[q]) < opts.len() by {
            if q < other_ids(opts, d, sec).len() {
                assert(o[q] == other_ids(opts, d, sec)[q]);
            }
        }
    }
}

/// The clashing options of `k` are positions of options, and include every option of another
/// section in a group whose address lies strictly inside option `k`.
proof fn lemma_clash_ids(
    opts: Seq<AddressOption>,
    g: Seq<(u64, Seq<usize>)>,
    k: usize,
    m: int,
)
    requires
        0 <= m <= g.len(),
        k < opts.len(),
        groups_in_range(g, opts.len() as int),
    ensures
        ids_below(clash_ids_upto(opts, g, k, m), opts.len() as int),
        forall|j: int, t: int|
            0 <= j < m && 0 <= t < g[j].1.len() && opts[k as int].address < g[j].0 && g[j].0
                < opts[k as int].end_address && opts[#[trigger] g[j].1[t] as int].section
                != opts[k as int].section ==> exists|u: int|
                0 <= u < clash_ids_upto(opts, g, k, m).len() && #[trigger] clash_ids_upto(
                    opts,
                    g,
                    k,
                    m,
                )[u] == g[j].1[t],
    decreases m,
{
    if m > 0 {
        lemma_clash_ids(opts, g, k, m - 1);
        let prev = clash_ids_upto(opts, g, k, m - 1);
        let grp = g[m - 1];
        let o = opts[k as int];
        assert(ids_below(grp.1, opts.len() as int)) by {
            assert forall|q: int| 0 <= q < grp.1.len() implies (#[trigger] grp.1[q]) < opts.len() by {
                assert(g[m - 1].1[q] < opts.len());
            }
        }
        lemma_other_ids_below(opts, grp.1, o.section);
        let c = clash_ids_upto(opts, g, k, m);
        if o.address < grp.0 && grp.0 < o.end_address {
            let oth = other_ids(opts, grp.1, o.section);
            assert(c == prev + oth);
            assert forall|q: int| 0 <= q < c.len() implies (#[trigger] c[q]) < opts.len() by {
                if q < prev.len() {
                    assert(c[q] == prev[q]);
                } else {
                    assert(c[q] == oth[q - prev.len()]);
                }
            }
        }
        assert forall|j: int, t: int|
            0 <= j < m && 0 <= t < g[j].1.len() && opts[k as int].address < g[j].0 && g[j].0
                < opts[k as int].end_address && opts[#[trigger] g[j].1[t] as int].section
                != opts[k as int].section implies exists|u: int|
            0 <= u < c.len() && #[trigger] c[u] == g[j].1[t] by {
            if j < m - 1 {
                let u = choose|u: int| 0 <= u < prev.len() && #[trigger] prev[u] == g[j].1[t];
                assert(c[u] == prev[u]);
            } else {
                let oth = other_ids(opts, grp.1, o.section);
                lemma_other_ids(opts, grp.1, o.section, t);
                let u = choose|u: int| 0 <= u < oth.len() && #[trigger] oth[u] == grp.1[t];
                assert(c[prev.len() + u] == oth[u]);
            }
        }
    }
}

/// The clash constraint of option `k`.
pub open spec fn clash_constraint(opts: Seq<AddressOption>, g: Seq<(u64, Seq<usize>)>, k: usize) -> ConstraintView {
    let c = clash_ids(opts, g, k);
    ConstraintView {
        terms: unit_terms(c).push((k, (c.len() + 1) as i64)),
        relation: Relation::AtMost,
        rhs: (c.len() + 1) as i64,
    }
}

/// The clash constraints of `ids` include that of every option with clashing options.
proof fn lemma_clash_rows_member(
    opts: Seq<AddressOption>,
    g: Seq<(u64, Seq<usize>)>,
    ids: Seq<usize>,
    t: int,
)
    requires
        0 <= t < ids.len(),
        clash_rows(opts, g, ids) is Some,
        clash_ids(opts, g, ids[t]).len() > 0,
    ensures
        exists|idx: int|
            0 <= idx < clash_rows(opts, g, ids)->Some_0.len() && #[trigger] clash_rows(
                opts,
                g,
                ids,
            )->Some_0[idx] == clash_constraint(opts, g, ids[t]),
        clash_ids(opts, g, ids[t]).len() + 1 <= EXACT_LIMIT,
    decreases ids.len(),
{
    let d = ids.drop_last();
    let a = clash_rows(opts, g, d)->Some_0;
    let b = clash_row(opts, g, ids.last())->Some_0;
    let all = clash_rows(opts, g, ids)->Some_0;
    assert(all == a + b);
    if t < ids.len() - 1 {
        assert(d[t] == ids[t]);
        lemma_clash_rows_member(opts, g, d, t);
        let idx = choose|idx: int| 0 <= idx < a.len() && #[trigger] a[idx] == clash_constraint(opts, g, d[t]);
        assert(all[idx] == a[idx]);
    } else {
        assert(b == seq![clash_constraint(opts, g, ids[t])]);
        assert(all[a.len() as int] == b[0]);
    }
}

/// The constraints of the first `m` groups include the constraint restricting group `j` to
/// one chosen option, and the clash constraint of each of its options that has clashing
/// options.
proof fn lemma_rows_upto_member(opts: Seq<AddressOption>, g: Seq<(u64, Seq<usize>)>, m: int, j: int)
    requires
        0 <= j < m <= g.len(),
        address_rows_upto(opts, g, m) is Some,
    ensures
        g[j].1.len() > 1 ==> exists|idx: int|
            0 <= idx < address_rows_upto(opts, g, m)->Some_0.len() && #[trigger] address_rows_upto(
                opts,
                g,
                m,
            )->Some_0[idx] == (ConstraintView {
                terms: unit_terms(g[j].1),
                relation: Relation::AtMost,
                rhs: 1,
            }),
        forall|t: int|
            0 <= t < g[j].1.len() && clash_ids(opts, g, #[trigger] g[j].1[t]).len() > 0 ==> exists|
                idx: int,
            |
                0 <= idx < address_rows_upto(opts, g, m)->Some_0.len()
                    && #[trigger] address_rows_upto(opts, g, m)->Some_0[idx] == clash_constraint(
                    opts,
                    g,
                    g[j].1[t],
                ),
        forall|t: int|
            0 <= t < g[j].1.len() && clash_ids(opts, g, #[trigger] g[j].1[t]).len() > 0 ==> clash_ids(
                opts,
                g,
                g[j].1[t],
            ).len() + 1 <= EXACT_LIMIT,
    decreases m,
{
    let a = address_rows_upto(opts, g, m - 1)->Some_0;
    let r = restrict_row(g[m - 1].1);
    let b = clash_rows(opts, g, g[m - 1].1)->Some_0;
    let all = address_rows_upto(opts, g, m)->Some_0;
    assert(all == a + r + b);
    if j < m - 1 {
        lemma_rows_upto_member(opts, g, m - 1, j);
        if g[j].1.len() > 1 {
            let idx = choose|idx: int|
                0 <= idx < a.len() && #[trigger] a[idx] == (ConstraintView {
                    terms: unit_terms(g[j].1),
                    relation: Relation::AtMost,
                    rhs: 1,
                });
            assert(all[idx] == a[idx]);
        }
        assert forall|t: int|
            0 <= t < g[j].1.len() && clash_ids(opts, g, #[trigger] g[j].1[t]).len() > 0 implies exists|
            idx: int,
        | 0 <= idx < all.len() && #[trigger] all[idx] == clash_constraint(opts, g, g[j].1[t]) by {
            let idx = choose|idx: int|
                0 <= idx < a.len() && #[trigger] a[idx] == clash_constraint(opts, g, g[j].1[t]);
            assert(all[idx] == a[idx]);
        }
    } else {
        assert forall|t: int|
            0 <= t < g[j].1.len() && clash_ids(opts, g, #[trigger] g[j].1[t]).len() > 0 implies clash_ids(
            opts,
            g,
            g[j].1[t],
        ).len() + 1 <= EXACT_LIMIT by {
            lemma_clash_rows_member(opts, g, g[j].1, t);
        }
        if g[j].1.len() > 1 {
            assert(all[a.len() as int] == r[0]);
        }
        assert forall|t: int|
            0 <= t < g[j].1.len() && clash_ids(opts, g, #[trigger] g[j].1[t]).len() > 0 implies exists|
            idx: int,
        | 0 <= idx < all.len() && #[trigger] all[idx] == clash_constraint(opts, g, g[j].1[t]) by {
            lemma_clash_rows_member(opts, g, g[j].1, t);
            let idx = choose|idx: int|
                0 <= idx < b.len() && #[trigger] b[idx] == clash_constraint(opts, g, g[j].1[t]);
            assert(all[a.len() + r.len() + idx] == b[idx]);
        }
    }
}

/// A chosen option `k1` of a solution meeting the placement constraints shares no address with
/// another chosen option `k2` of another section, nor does `k2` start inside `k1`.
proof fn lemma_not_inside(
    secs: Seq<SectionView>,
    bs: Seq<MemoryBin>,
    opts: Seq<AddressOption>,
    p: ProblemView,
    values: Seq<SolvedValue>,
    k1: int,
    k2: int,
)
    requires
        all_options(secs, bs) == Ok::<Seq<AddressOption>, BuildFailure>(opts),
        placement_spec(secs, bs) == Ok::<ProblemView, BuildFailure>(p),
        secs.len() <= usize::MAX,
        opts.len() <= usize::MAX,
        values.len() == opts.len(),
        satisfies(p, selection(values)),
        0 <= k1 < opts.len(),
        0 <= k2 < opts.len(),
        k1 != k2,
        values[k1].positive,
        values[k2].positive,
        opts[k1].section != opts[k2].section,
        opts[k1].address <= opts[k2].address,
    ensures
        opts[k1].end_address <= opts[k2].address,
        opts[k1].address < opts[k2].address,
{
    let g = groups_of(opts);
    let x = selection(values);
    let n = secs.len();
    assert(binary(x));
    lemma_groups_sound(opts);
    let rows = address_rows(opts, g)->Some_0;
    assert(p.constraints == Seq::new(n, |i: int| exactly_one(opts, i)) + rows);
    assert(holds_option(g, k1));
    assert(holds_option(g, k2));
    let (j1, t1) = choose|j: int, t: int| 0 <= j < g.len() && 0 <= t < g[j].1.len() && g[j].1[t] == k1;
    let (j2, t2) = choose|j: int, t: int| 0 <= j < g.len() && 0 <= t < g[j].1.len() && g[j].1[t] == k2;
    assert(opts[g[j1].1[t1] as int].address == g[j1].0);
    assert(opts[g[j2].1[t2] as int].address == g[j2].0);
    assert(x[k1] == 1 && x[k2] == 1);
    if opts[k1].address == opts[k2].address {
        if j1 != j2 {
            if j1 < j2 {
                assert(g[j1].0 < g[j2].0);
            } else {
                assert(g[j2].0 < g[j1].0);
            }
        }
        assert(j1 == j2);
        assert(t1 != t2);
        lemma_rows_upto_member(opts, g, g.len() as int, j1);
        let c = ConstraintView { terms: unit_terms(g[j1].1), relation: Relation::AtMost, rhs: 1 };
        let idx = choose|idx: int| 0 <= idx < rows.len() && #[trigger] rows[idx] == c;
        assert(p.constraints[n + idx] == rows[idx]);
        assert(holds(p.constraints[n + idx], x));
        assert(ids_below(g[j1].1, x.len() as int)) by {
            assert forall|q: int| 0 <= q < g[j1].1.len() implies (#[trigger] g[j1].1[q]) < x.len() by {
                assert(g[j1].1[q] < opts.len());
            }
        }
        lemma_unit_sum(g[j1].1, x);
        assert(terms_value(unit_terms(g[j1].1), x) >= x[g[j1].1[t1] as int] + x[g[j1].1[t2] as int]);
        assert(false);
    }
    if opts[k2].address < opts[k1].end_address {
        let o1 = opts[k1];
        lemma_clash_ids(opts, g, k1 as usize, g.len() as int);
        assert(opts[g[j2].1[t2] as int].section != o1.section);
        let cl = clash_ids(opts, g, k1 as usize);
        let u = choose|u: int| 0 <= u < cl.len() && #[trigger] cl[u] == g[j2].1[t2];
        lemma_rows_upto_member(opts, g, g.len() as int, j1);
        assert(clash_ids(opts, g, g[j1].1[t1]).len() > 0);
        let c = clash_constraint(opts, g, k1 as usize);
        let idx = choose|idx: int| 0 <= idx < rows.len() && #[trigger] rows[idx] == c;
        assert(p.constraints[n + idx] == rows[idx]);
        assert(holds(p.constraints[n + idx], x));
        assert(cl.len() + 1 <= EXACT_LIMIT);
        let w = (cl.len() + 1) as i64;
        assert(c.terms.drop_last() =~= unit_terms(cl));
        assert(terms_value(c.terms, x) == terms_value(unit_terms(cl), x) + w * x[k1]);
        lemma_unit_sum(cl, x);
        assert(terms_value(unit_terms(cl), x) >= x[cl[u] as int]);
        assert(false);
    }
}

/// Two options chosen by a solution that meets the placement constraints belong to different
/// sections and do not overlap.
pub proof fn lemma_chosen_options_disjoint(
    secs: Seq<SectionView>,
    bs: Seq<MemoryBin>,
    opts: Seq<AddressOption>,
    p: ProblemView,
    values: Seq<SolvedValue>,
    k1: int,
    k2: int,
)
    requires
        all_options(secs, bs) == Ok::<Seq<AddressOption>, BuildFailure>(opts),
        placement_spec(secs, bs) == Ok::<ProblemView, BuildFailure>(p),
        secs.len() <= usize::MAX,
        opts.len() <= usize::MAX,
        values.len() == opts.len(),
        satisfies(p, selection(values)),
        0 <= k1 < opts.len(),
        0 <= k2 < opts.len(),
        k1 != k2,
        values[k1].positive,
        values[k2].positive,
    ensures
        opts[k1].section != opts[k2].section,
        opts[k1].end_address <= opts[k2].address || opts[k2].end_address
            <= opts[k1].address,
{
    let x = selection(values);
    let n = secs.len();
    assert(binary(x));
    lemma_all_options_wf(secs, bs);
    if opts[k1].section == opts[k2].section {
        let i = opts[k1].section;
        assert(p.constraints[i as int] == exactly_one(opts, i as int));
        assert(holds(p.constraints[i as int], x));
        lemma_ids_of_section(opts, i, k1);
        lemma_ids_of_section(opts, i, k2);
        let ids = ids_of_section(opts, i);
        let u1 = choose|u: int| 0 <= u < ids.len() && #[trigger] ids[u] == k1 as usize;
        let u2 = choose|u: int| 0 <= u < ids.len() && #[trigger] ids[u] == k2 as usize;
        lemma_unit_sum(ids, x);
        assert(terms_value(unit_terms(ids), x) >= x[ids[u1] as int] + x[ids[u2] as int]);
        assert(false);
    }
    if opts[k1].address <= opts[k2].address {
        lemma_not_inside(secs, bs, opts, p, values, k1, k2);
    } else {
        lemma_not_inside(secs, bs, opts, p, values, k2, k1);
    }
}

/// The chosen options among `ids` are positive entries of `ids`, in order.
proof fn lemma_positive_ids(ids: Seq<usize>, values: Seq<SolvedValue>)
    ensures
        forall|u: int|
            0 <= u < positive_ids(ids, values).len() ==> values[(#[trigger] positive_ids(
                ids,
                values,
            )[u]) as int].positive && exists|t: int|
                0 <= t < ids.len() && ids[t] == positive_ids(ids, values)[u],
        (forall|t1: int, t2: int| 0 <= t1 < t2 < ids.len() ==> #[trigger] ids[t1] < #[trigger] ids[t2])
            ==> forall|u: int, v: int|
            0 <= u < v < positive_ids(ids, values).len() ==> #[trigger] positive_ids(ids, values)[u]
                < #[trigger] positive_ids(ids, values)[v],
    decreases ids.len(),
{
    if ids.len() > 0 {
        let d = ids.drop_last();
        lemma_positive_ids(d, values);
        let pd = positive_ids(d, values);
        let pi = positive_ids(ids, values);
        assert forall|u: int| 0 <= u < pi.len() implies values[(#[trigger] pi[u]) as int].positive
            && exists|t: int| 0 <= t < ids.len() && ids[t] == pi[u] by {
            if u < pd.len() {
                assert(pi[u] == pd[u]);
                let t = choose|t: int| 0 <= t < d.len() && d[t] == pd[u];
                assert(ids[t] == d[t]);
            } else {
                assert(pi[u] == ids.last());
                assert(ids[ids.len() - 1] == pi[u]);
            }
        }
        if forall|t1: int, t2: int| 0 <= t1 < t2 < ids.len() ==> #[trigger] ids[t1] < #[trigger] ids[t2] {
            assert(forall|t1: int, t2: int| 0 <= t1 < t2 < d.len() ==> #[trigger] d[t1] < #[trigger] d[t2]) by {
                assert forall|t1: int, t2: int| 0 <= t1 < t2 < d.len() implies #[trigger] d[t1] < #[trigger] d[t2] by {
                    assert(d[t1] == ids[t1] && d[t2] == ids[t2]);
                }
            }
            assert forall|u: int, v: int| 0 <= u < v < pi.len() implies #[trigger] pi[u] < #[trigger] pi[v] by {
                if v < pd.len() {
                    assert(pi[u] == pd[u] && pi[v] == pd[v]);
                } else {
                    assert(pi[u] == pd[u]);
                    let t = choose|t: int| 0 <= t < d.len() && d[t] == pd[u];
                    assert(ids[t] == d[t]);
                    assert(ids[t] < ids[ids.len() - 1]);
                }
            }
        }
    }
}

/// The chosen options are positive, each in one group, pairwise distinct, and in address order.
pub proof fn lemma_chosen(
    opts: Seq<AddressOption>,
    g: Seq<(u64, Seq<usize>)>,
    values: Seq<SolvedValue>,
    m: int,
)
    requires
        groups_sound(g, opts),
        0 <= m <= g.len(),
    ensures
        forall|u: int|
            0 <= u < chosen_upto(g, values, m).len() ==> values[(#[trigger] chosen_upto(
                g,
                values,
                m,
            )[u]) as int].positive && exists|j: int|
                0 <= j < m && opts[chosen_upto(g, values, m)[u] as int].address == g[j].0,
        forall|u: int|
            0 <= u < chosen_upto(g, values, m).len() ==> (#[trigger] chosen_upto(g, values, m)[u])
                < opts.len(),
        forall|u: int, v: int|
            0 <= u < v < chosen_upto(g, values, m).len() ==> #[trigger] chosen_upto(g, values, m)[u]
                != #[trigger] chosen_upto(g, values, m)[v] && opts[chosen_upto(
                g,
                values,
                m,
            )[u] as int].address <= opts[chosen_upto(g, values, m)[v] as int].address,
    decreases m,
{
    if m > 0 {
        lemma_chosen(opts, g, values, m - 1);
        let prev = chosen_upto(g, values, m - 1);
        let ids = g[m - 1].1;
        let pos = positive_ids(ids, values);
        let c = chosen_upto(g, values, m);
        assert(c == prev + pos);
        lemma_positive_ids(ids, values);
        assert(forall|t1: int, t2: int| 0 <= t1 < t2 < ids.len() ==> #[trigger] ids[t1] < #[trigger] ids[t2]);
        assert forall|u: int| 0 <= u < pos.len() implies opts[(#[trigger] pos[u]) as int].address
            == g[m - 1].0 && pos[u] < opts.len() by {
            let t = choose|t: int| 0 <= t < ids.len() && ids[t] == pos[u];
            assert(g[m - 1].1[t] == pos[u]);
        }
        assert forall|u: int| 0 <= u < c.len() implies values[(#[trigger] c[u]) as int].positive
            && exists|j: int| 0 <= j < m && opts[c[u] as int].address == g[j].0 by {
            if u < prev.len() {
                assert(c[u] == prev[u]);
                let j = choose|j: int| 0 <= j < m - 1 && opts[prev[u] as int].address == g[j].0;
            } else {
                assert(c[u] == pos[u - prev.len()]);
            }
        }
        assert forall|u: int| 0 <= u < c.len() implies (#[trigger] c[u]) < opts.len() by {
            if u < prev.len() {
                assert(c[u] == prev[u]);
            } else {
                assert(c[u] == pos[u - prev.len()]);
            }
        }
        assert forall|u: int, v: int| 0 <= u < v < c.len() implies #[trigger] c[u] != #[trigger] c[v]
            && opts[c[u] as int].address <= opts[c[v] as int].address by {
            if v < prev.len() {
                assert(c[u] == prev[u] && c[v] == prev[v]);
            } else if u >= prev.len() {
                assert(c[u] == pos[u - prev.len()] && c[v] == pos[v - prev.len()]);
                assert(pos[u - prev.len()] < pos[v - prev.len()]);
            } else {
                assert(c[u] == prev[u] && c[v] == pos[v - prev.len()]);
                let j = choose|j: int| 0 <= j < m - 1 && opts[prev[u] as int].address == g[j].0;
                assert(g[j].0 < g[m - 1].0);
            }
        }
    }
}

/// When a solution meets the placement constraints, the sections it places are in address
/// order, each ends no later than the next one starts, and no two of them are copies of one
/// section.
pub proof fn lemma_placements_disjoint(
    secs: Seq<SectionView>,
    bs: Seq<MemoryBin>,
    opts: Seq<AddressOption>,
    p: ProblemView,
    values: Seq<SolvedValue>,
    u: int,
    v: int,
)
    requires
        all_options(secs, bs) == Ok::<Seq<AddressOption>, BuildFailure>(opts),
        placement_spec(secs, bs) == Ok::<ProblemView, BuildFailure>(p),
        secs.len() <= usize::MAX,
        opts.len() <= usize::MAX,
        values.len() == opts.len(),
        satisfies(p, selection(values)),
        0 <= u < v < chosen(groups_of(opts), values).len(),
    ensures
        chosen_placements(secs, opts, groups_of(opts), values)[u].address + chosen_placements(
            secs,
            opts,
            groups_of(opts),
            values,
        )[u].size <= chosen_placements(secs, opts, groups_of(opts), values)[v].address,
        opts[chosen(groups_of(opts), values)[u] as int].section != opts[chosen(
            groups_of(opts),
            values,
        )[v] as int].section,
{
    let g = groups_of(opts);
    let c = chosen(g, values);
    lemma_groups_sound(opts);
    lemma_chosen(opts, g, values, g.len() as int);
    lemma_all_options_wf(secs, bs);
    let k1 = c[u] as int;
    let k2 = c[v] as int;
    assert(c[u] != c[v]);
    assert(opts[k1].address <= opts[k2].address);
    lemma_chosen_options_disjoint(secs, bs, opts, p, values, k1, k2);
    lemma_not_inside(secs, bs, opts, p, values, k1, k2);
    let a = chosen_placements(secs, opts, g, values);
    assert(a[u] == option_placement(secs, opts[k1]));
    assert(a[v] == option_placement(secs, opts[k2]));
}


/// Some entry of `c` chooses an option of section `i`.
pub open spec fn chosen_for(opts: Seq<AddressOption>, c: Seq<usize>, i: int) -> bool {
    exists|u: int| 0 <= u < c.len() && #[trigger] opts[c[u] as int].section == i
}

/// A sum of zero values is zero.
proof fn lemma_unit_sum_zero(ids: Seq<usize>, x: Seq<int>)
    requires
        ids_below(ids, x.len() as int),
        forall|u: int| 0 <= u < ids.len() ==> x[#[trigger] ids[u] as int] == 0,
    ensures
        terms_value(unit_terms(ids), x) == 0,
    decreases ids.len(),
{
    if ids.len() > 0 {
        let d = ids.drop_last();
        assert(unit_terms(ids).drop_last() =~= unit_terms(d));
        assert forall|u: int| 0 <= u < d.len() implies x[#[trigger] d[u] as int] == 0 by {
            assert(d[u] == ids[u]);
        }
        assert(ids_below(d, x.len() as int)) by {
            assert forall|t: int| 0 <= t < d.len() implies (#[trigger] d[t]) < x.len() by {
                assert(d[t] == ids[t]);
            }
        }
        lemma_unit_sum_zero(d, x);
        assert(unit_terms(ids).last() == (ids.last(), 1i64));
        assert(x[ids[ids.len() - 1] as int] == 0);
    }
}

/// A positive option of `ids` is among the chosen ones of `ids`.
proof fn lemma_positive_ids_has(ids: Seq<usize>, values: Seq<SolvedValue>, t: int)
    requires
        0 <= t < ids.len(),
        values[ids[t] as int].positive,
    ensures
        exists|w: int| 0 <= w < positive_ids(ids, values).len() && #[trigger] positive_ids(ids, values)[w] == ids[t],
    decreases ids.len(),
{
    let d = ids.drop_last();
    if t < ids.len() - 1 {
        assert(d[t] == ids[t]);
        lemma_positive_ids_has(d, values, t);
        let w = choose|w: int| 0 <= w < positive_ids(d, values).len() && #[trigger] positive_ids(d, values)[w] == d[t];
        if values[ids.last() as int].positive {
            assert(positive_ids(ids, values) == positive_ids(d, values).push(ids.last()));
            assert(positive_ids(ids, values)[w] == positive_ids(d, values)[w]);
        } else {
            assert(positive_ids(ids, values) == positive_ids(d, values));
        }
    } else {
        assert(ids.last() == ids[t]);
        assert(positive_ids(ids, values) == positive_ids(d, values).push(ids.last()));
        assert(positive_ids(ids, values)[positive_ids(d, values).len() as int] == ids[t]);
    }
}

/// The chosen options of the first `m` groups hold the chosen options of each of them.
proof fn lemma_chosen_upto_has(g: Seq<(u64, Seq<usize>)>, values: Seq<SolvedValue>, m: int, j: int, w: int)
    requires
        0 <= j < m,
        0 <= w < positive_ids(g[j].1, values).len(),
    ensures
        exists|u: int| 0 <= u < chosen_upto(g, values, m).len() && #[trigger] chosen_upto(g, values, m)[u] == positive_ids(g[j].1, values)[w],
    decreases m,
{
    let prev = chosen_upto(g, values, m - 1);
    let pos = positive_ids(g[m - 1].1, values);
    assert(chosen_upto(g, values, m) == prev + pos);
    if j < m - 1 {
        lemma_chosen_upto_has(g, values, m - 1, j, w);
        let u = choose|u: int| 0 <= u < prev.len() && #[trigger] prev[u] == positive_ids(g[j].1, values)[w];
        assert(chosen_upto(g, values, m)[u] == prev[u]);
    } else {
        assert(chosen_upto(g, values, m)[prev.len() + w] == pos[w]);
    }
}

/// When a solution meets the placement constraints, every section being placed has exactly
/// one chosen option, and there are as many chosen options as sections.
pub proof fn lemma_each_section_chosen_once(
    secs: Seq<SectionView>,
    bs: Seq<MemoryBin>,
    opts: Seq<AddressOption>,
    p: ProblemView,
    values: Seq<SolvedValue>,
)
    requires
        all_options(secs, bs) == Ok::<Seq<AddressOption>, BuildFailure>(opts),
        placement_spec(secs, bs) == Ok::<ProblemView, BuildFailure>(p),
        secs.len() <= usize::MAX,
        opts.len() <= usize::MAX,
        values.len() == opts.len(),
        satisfies(p, selection(values)),
    ensures
        ({
            let c = chosen(groups_of(opts), values);
            &&& c.len() == secs.len()
            &&& forall|u: int| 0 <= u < c.len() ==> opts[#[trigger] c[u] as int].section < secs.len()
            &&& forall|i: int| 0 <= i < secs.len() ==> #[trigger] chosen_for(opts, c, i)
            &&& forall|u: int, v: int|
                0 <= u < c.len() && 0 <= v < c.len() && #[trigger] opts[c[u] as int].section
                    == #[trigger] opts[c[v] as int].section ==> u == v
        }),
{
    let g = groups_of(opts);
    let c = chosen(g, values);
    let x = selection(values);
    let n = secs.len();
    assert(binary(x));
    lemma_groups_sound(opts);
    lemma_chosen(opts, g, values, g.len() as int);
    lemma_all_options_wf(secs, bs);
    assert forall|u: int| 0 <= u < c.len() implies opts[#[trigger] c[u] as int].section < secs.len() by {
        assert(c[u] < opts.len());
    }
    assert forall|i: int| 0 <= i < n implies #[trigger] chosen_for(opts, c, i) by {
        let ids = ids_of_section(opts, i as usize);
        lemma_ids_of_section_below(opts, i as usize);
        assert(p.constraints[i] == exactly_one(opts, i));
        assert(holds(p.constraints[i], x));
        if forall|t: int| 0 <= t < ids.len() ==> x[#[trigger] ids[t] as int] == 0 {
            lemma_unit_sum_zero(ids, x);
            assert(false);
        }
        let t = choose|t: int| 0 <= t < ids.len() && x[#[trigger] ids[t] as int] != 0;
        let k = ids[t] as int;
        assert(values[k].positive);
        lemma_ids_of_section_member(opts, i as usize, t);
        assert(holds_option(g, k));
        let (j, t2) = choose|j: int, t2: int| 0 <= j < g.len() && 0 <= t2 < g[j].1.len() && g[j].1[t2] == k;
        lemma_positive_ids_has(g[j].1, values, t2);
        let w = choose|w: int| 0 <= w < positive_ids(g[j].1, values).len() && #[trigger] positive_ids(g[j].1, values)[w] == g[j].1[t2];
        lemma_chosen_upto_has(g, values, g.len() as int, j, w);
        let u = choose|u: int| 0 <= u < chosen_upto(g, values, g.len() as int).len() && #[trigger] chosen_upto(g, values, g.len() as int)[u] == positive_ids(g[j].1, values)[w];
        assert(c[u] as int == k);
        assert(opts[c[u] as int].section == i);
    }
    assert forall|u: int, v: int|
        0 <= u < c.len() && 0 <= v < c.len() && #[trigger] opts[c[u] as int].section
            == #[trigger] opts[c[v] as int].section implies u == v by {
        if u != v {
            assert(c[u] != c[v]);
            lemma_chosen_options_disjoint(secs, bs, opts, p, values, c[u] as int, c[v] as int);
        }
    }
    let f = |u: int| opts[c[u] as int].section as int;
    let dom = vstd::set_lib::set_int_range(0, c.len() as int);
    let range = vstd::set_lib::set_int_range(0, n as int);
    vstd::set_lib::lemma_int_range(0, c.len() as int);
    vstd::set_lib::lemma_int_range(0, n as int);
    assert(vstd::relations::injective_on(f, dom)) by {
        assert forall|u: int, v: int| dom.contains(u) && dom.contains(v) && #[trigger] f(u) == #[trigger] f(v) implies u == v by {
            assert(opts[c[u] as int].section == opts[c[v] as int].section);
        }
    }
    assert(dom.map(f) =~= range) by {
        assert forall|i: int| range.contains(i) implies dom.map(f).contains(i) by {
            assert(chosen_for(opts, c, i));
            let u = choose|u: int| 0 <= u < c.len() && #[trigger] opts[c[u] as int].section == i;
            assert(dom.contains(u) && f(u) == i);
        }
        assert forall|i: int| dom.map(f).contains(i) implies range.contains(i) by {
            let u = choose|u: int| dom.contains(u) && f(u) == i;
            assert(opts[c[u] as int].section < secs.len());
        }
    }
    vstd::set_lib::lemma_map_size(dom, range, f);
}

/// Option `ids_of_section(opts, i)[t]` belongs to section `i`.
proof fn lemma_ids_of_section_member(opts: Seq<AddressOption>, i: usize, t: int)
    requires
        0 <= t < ids_of_section(opts, i).len(),
        opts.len() <= usize::MAX,
    ensures
        ids_of_section(opts, i)[t] < opts.len(),
        opts[ids_of_section(opts, i)[t] as int].section == i,
    decreases opts.len(),
{
    let d = opts.drop_last();
    if opts.last().section == i && t == ids_of_section(opts, i).len() - 1 {
        assert(ids_of_section(opts, i)[t] == (opts.len() - 1) as usize);
    } else {
        assert(ids_of_section(opts, i)[t] == ids_of_section(d, i)[t]);
        lemma_ids_of_section_member(d, i, t);
        assert(d[ids_of_section(d, i)[t] as int] == opts[ids_of_section(d, i)[t] as int]);
    }
}


/// Rounding up to a multiple of `align` gives a multiple of `align`, no smaller than `x`.
proof fn lemma_round_up_multiple(x: int, align: int)
    requires
        align > 0,
        x >= 0,
    ensures
        round_up(x, align) % align == 0,
        round_up(x, align) >= x,
{
    vstd::arithmetic::div_mod::lemma_fundamental_div_mod(x, align);
    let q = x / align;
    let r = x % align;
    assert(0 <= r < align);
    if r != 0 {
        assert(round_up(x, align) == (q + 1) * align) by (nonlinear_arith)
            requires
                x == align * q + r,
                round_up(x, align) == x + align - r,
        ;
        vstd::arithmetic::div_mod::lemma_mod_multiples_basic(q + 1, align);
    } else {
        assert(x == q * align) by (nonlinear_arith)
            requires
                x == align * q + r,
                r == 0,
        ;
        vstd::arithmetic::div_mod::lemma_mod_multiples_basic(q, align);
    }
}

proof fn lemma_scan_honours(s: SectionView, i: usize, b: MemoryBin, align: u64, a: u64)
    requires
        align > 0 ==> (a as int) % (align as int) == 0,
        s.address_align matches Some(x) ==> x == align,
    ensures
        scan(s, i, b, align, a) matches Ok(v) ==> forall|k: int|
            0 <= k < v.len() ==> {
                &&& (s.address matches Some(x) ==> (#[trigger] v[k]).address == x)
                &&& (s.address_align matches Some(x) ==> x > 0 && (v[k].address as int) % (
                x as int) == 0)
            },
    decreases
            (if a < b.end_address {
                b.end_address - a
            } else {
                0
            }),
{
    if !(a >= b.end_address || !b.fits_at(a, s) || align == 0) {
        let next = round_up(a + 1, align as int);
        lemma_round_up_multiple(a + 1, align as int);
        if next <= u64::MAX {
            lemma_scan_honours(s, i, b, align, next as u64);
            if let Ok(v) = scan(s, i, b, align, a) {
                let here = if s.address is None || s.address == Some(a) {
                    make_option(s, i, b, a)
                } else {
                    Ok(Seq::empty())
                };
                let rest = scan(s, i, b, align, next as u64)->Ok_0;
                let h = here->Ok_0;
                assert(v == h + rest);
                assert forall|k: int| 0 <= k < v.len() implies {
                    &&& (s.address matches Some(x) ==> (#[trigger] v[k]).address == x)
                    &&& (s.address_align matches Some(x) ==> x > 0 && (v[k].address as int) % (
                    x as int) == 0)
                } by {
                    if k < h.len() {
                        assert(v[k] == h[k]);
                        assert(h[k].address == a);
                    } else {
                        assert(v[k] == rest[k - h.len()]);
                    }
                }
            }
        }
    }
}

proof fn lemma_bins_options_honour(s: SectionView, i: usize, bs: Seq<MemoryBin>)
    ensures
        bins_options(s, i, bs) matches Ok(v) ==> forall|k: int|
            0 <= k < v.len() ==> {
                &&& (s.address matches Some(x) ==> (#[trigger] v[k]).address == x)
                &&& (s.address_align matches Some(x) ==> x > 0 && (v[k].address as int) % (
                x as int) == 0)
            },
    decreases bs.len(),
{
    if bs.len() > 0 {
        let d = bs.drop_last();
        lemma_bins_options_honour(s, i, d);
        let b = bs.last();
        let align = alignment(s, b);
        if align != 0 {
            let a0 = round_up(b.start_address as int, align as int);
            lemma_round_up_multiple(b.start_address as int, align as int);
            if a0 <= u64::MAX {
                lemma_scan_honours(s, i, b, align, a0 as u64);
            }
        }
        if let Ok(v) = bins_options(s, i, bs) {
            let o = bins_options(s, i, d)->Ok_0;
            let o2 = bin_options(s, i, b)->Ok_0;
            assert(v == o + o2);
            assert forall|k: int| 0 <= k < v.len() implies {
                &&& (s.address matches Some(x) ==> (#[trigger] v[k]).address == x)
                &&& (s.address_align matches Some(x) ==> x > 0 && (v[k].address as int) % (
                x as int) == 0)
            } by {
                if k < o.len() {
                    assert(v[k] == o[k]);
                } else {
                    assert(v[k] == o2[k - o.len()]);
                }
            }
        }
    }
}

/// Every candidate address of a section that is not a boot section honours its address
/// requirements: it is the exact address the section states, and a multiple of the alignment
/// the section states. A boot section's only candidate is the start of the first free region.
pub proof fn lemma_options_honour_address(secs: Seq<SectionView>, bs: Seq<MemoryBin>)
    requires
        secs.len() <= usize::MAX,
    ensures
        all_options(secs, bs) matches Ok(v) ==> forall|k: int|
            0 <= k < v.len() && !secs[(#[trigger] v[k]).section as int].boot ==> {
                &&& v[k].section < secs.len()
                &&& (secs[v[k].section as int].address matches Some(x) ==> v[k].address == x)
                &&& (secs[v[k].section as int].address_align matches Some(x) ==> x > 0 && (
                v[k].address as int) % (x as int) == 0)
            },
    decreases secs.len(),
{
    lemma_all_options_wf(secs, bs);
    if secs.len() > 0 {
        let i = (secs.len() - 1) as usize;
        let d = secs.drop_last();
        lemma_options_honour_address(d, bs);
        lemma_bins_options(secs.last(), i, bs);
        lemma_bins_options_honour(secs.last(), i, bs);
        if let Ok(v) = all_options(secs, bs) {
            let o = all_options(d, bs)->Ok_0;
            let o2 = section_options(secs.last(), i, bs)->Ok_0;
            assert(v == o + o2);
            assert forall|k: int|
                0 <= k < v.len() && !secs[(#[trigger] v[k]).section as int].boot implies {
                &&& v[k].section < secs.len()
                &&& (secs[v[k].section as int].address matches Some(x) ==> v[k].address == x)
                &&& (secs[v[k].section as int].address_align matches Some(x) ==> x > 0 && (
                v[k].address as int) % (x as int) == 0)
            } by {
                if k < o.len() {
                    assert(v[k] == o[k]);
                    lemma_all_options_wf(d, bs);
                    assert(o[k].section < d.len());
                    assert(d[o[k].section as int] == secs[o[k].section as int]);
                } else {
                    assert(v[k] == o2[k - o.len()]);
                    if bs.len() > 0 && secs.last().boot {
                        assert(o2[k - o.len()].section == i);
                    } else {
                        assert(options_of(o2, i));
                        assert(o2[k - o.len()].section == i);
                    }
                }
            }
        }
    }
}

/// A section that is not a boot section and states an exact address is placed at that address
/// by any solution of the placement problem, and a section that states an alignment at a
/// multiple of it.
pub proof fn lemma_chosen_honour_address(
    secs: Seq<SectionView>,
    bs: Seq<MemoryBin>,
    opts: Seq<AddressOption>,
    values: Seq<SolvedValue>,
)
    requires
        all_options(secs, bs) == Ok::<Seq<AddressOption>, BuildFailure>(opts),
        secs.len() <= usize::MAX,
        opts.len() <= usize::MAX,
    ensures
        forall|u: int|
            0 <= u < chosen(groups_of(opts), values).len() ==> {
                let o = opts[chosen(groups_of(opts), values)[u] as int];
                let p = #[trigger] chosen_placements(secs, opts, groups_of(opts), values)[u];
                !secs[o.section as int].boot ==> {
                    &&& p.name == secs[o.section as int].name
                    &&& (secs[o.section as int].address matches Some(x) ==> p.address == x)
                    &&& (secs[o.section as int].address_align matches Some(x) ==> x > 0 && (
                    p.address as int) % (x as int) == 0)
                }
            },
{
    let g = groups_of(opts);
    lemma_groups_sound(opts);
    lemma_chosen(opts, g, values, g.len() as int);
    lemma_options_honour_address(secs, bs);
    let c = chosen(g, values);
    assert forall|u: int| 0 <= u < c.len() implies {
        let o = opts[c[u] as int];
        let p = #[trigger] chosen_placements(secs, opts, g, values)[u];
        !secs[o.section as int].boot ==> {
            &&& p.name == secs[o.section as int].name
            &&& (secs[o.section as int].address matches Some(x) ==> p.address == x)
            &&& (secs[o.section as int].address_align matches Some(x) ==> x > 0 && (
            p.address as int) % (x as int) == 0)
        }
    } by {
        assert(c[u] < opts.len());
        assert(chosen_placements(secs, opts, g, values)[u] == option_placement(secs, opts[c[u] as int]));
    }
}

} // verus!
