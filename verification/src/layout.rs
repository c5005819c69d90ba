//! Memory layout description.
use crate::linker::{
    ld_memory_add_section, ld_memory_new, memory_entries, memory_section_entry, memory_section_new,
    plain_entry,
};
use crate::section::{ResolvedSection, Section, SectionView};
use vstd::prelude::*;

verus! {

/// The requirements of each section, in order.
pub open spec fn section_views<MetaData: Clone>(s: Seq<Section<MetaData>>) -> Seq<SectionView> {
    s.map_values(|x: Section<MetaData>| x@)
}

/// Positions of the sections to maximize, ascending.
pub open spec fn maximizing_positions(v: Seq<SectionView>) -> Seq<usize>
    decreases v.len(),
{
    if v.len() == 0 {
        Seq::empty()
    } else if v.last().needs_maximizing() {
        maximizing_positions(v.drop_last()).push((v.len() - 1) as usize)
    } else {
        maximizing_positions(v.drop_last())
    }
}

/// Positions of the sections the solver places at a size they state, ascending.
pub open spec fn allocatable_positions(v: Seq<SectionView>) -> Seq<usize>
    decreases v.len(),
{
    if v.len() == 0 {
        Seq::empty()
    } else if v.last().needs_allocating() {
        allocatable_positions(v.drop_last()).push((v.len() - 1) as usize)
    } else {
        allocatable_positions(v.drop_last())
    }
}

/// Sum of the pages the sections ask for explicitly.
pub open spec fn total_section_pages(v: Seq<SectionView>) -> int
    decreases v.len(),
{
    if v.len() == 0 {
        0
    } else {
        total_section_pages(v.drop_last()) + v.last().page_bound()
    }
}

/// Pages a section placed at the size it states needs in the free regions, with pages of
/// `page_size` bytes: the larger of its requested pages and the pages holding its byte size.
/// None for a fixed section, which lies outside the free regions, nor for a maximized section,
/// whose least pages the problem sharing the free pages asks for.
pub open spec fn needed_pages(s: SectionView, page_size: u64) -> int {
    if !s.needs_allocating() {
        0
    } else {
        let p = s.page_bound();
        let q = s.size_page_bound(page_size);
        if p < q {
            q as int
        } else {
            p as int
        }
    }
}

/// Pages the sections of `v` need in the free regions.
pub open spec fn total_needed_pages(v: Seq<SectionView>, page_size: u64) -> int
    decreases v.len(),
{
    if v.len() == 0 {
        0
    } else {
        total_needed_pages(v.drop_last(), page_size) + needed_pages(v.last(), page_size)
    }
}

/// The needed pages of a prefix are at most those of the whole, and never negative.
pub(crate) proof fn lemma_needed_pages_grow(v: Seq<SectionView>, page_size: u64, k: int)
    requires
        0 <= k <= v.len(),
    ensures
        0 <= total_needed_pages(v.take(k), page_size) <= total_needed_pages(v, page_size),
    decreases v.len(),
{
    if v.len() == 0 || k == v.len() {
        assert(v.take(k) =~= v);
        if v.len() > 0 {
            lemma_needed_pages_grow(v.drop_last(), page_size, 0);
            assert(v.drop_last().take(0) =~= Seq::<SectionView>::empty());
            lemma_needed_pages_grow(v.drop_last(), page_size, v.len() - 1);
        }
    } else {
        assert(v.drop_last().take(k) =~= v.take(k));
        lemma_needed_pages_grow(v.drop_last(), page_size, k);
    }
}

/// Number of boot sections.
pub open spec fn count_boot(v: Seq<SectionView>) -> int
    decreases v.len(),
{
    if v.len() == 0 {
        0
    } else {
        count_boot(v.drop_last()) + if v.last().boot {
            1int
        } else {
            0int
        }
    }
}

/// Position of the first section named `name`.
pub open spec fn index_of_name(v: Seq<SectionView>, name: Seq<char>) -> Option<int>
    decreases v.len(),
{
    if v.len() == 0 {
        None
    } else if v[0].name == name {
        Some(0)
    } else {
        match index_of_name(v.drop_first(), name) {
            Some(i) => Some(i + 1),
            None => None,
        }
    }
}

/// `v` with the section `s` merged into the one of the same name, or appended.
pub open spec fn merge_one(v: Seq<SectionView>, s: SectionView) -> Seq<SectionView> {
    match index_of_name(v, s.name) {
        Some(i) => v.update(i, v[i].merged(s)),
        None => v.push(s),
    }
}

/// `v` with each section of `others` merged in, in order.
pub open spec fn merge_all(v: Seq<SectionView>, others: Seq<SectionView>) -> Seq<SectionView>
    decreases others.len(),
{
    if others.len() == 0 {
        v
    } else {
        merge_one(merge_all(v, others.drop_last()), others.last())
    }
}

/// What `index_of_name` finds.
pub proof fn lemma_index_of_name(v: Seq<SectionView>, name: Seq<char>)
    ensures
        match index_of_name(v, name) {
            Some(i) => 0 <= i < v.len() && v[i].name == name && forall|j: int|
                0 <= j < i ==> (#[trigger] v[j]).name != name,
            None => forall|j: int| 0 <= j < v.len() ==> (#[trigger] v[j]).name != name,
        },
    decreases v.len(),
{
    if v.len() > 0 && v[0].name != name {
        lemma_index_of_name(v.drop_first(), name);
        match index_of_name(v.drop_first(), name) {
            Some(i) => {
                assert forall|j: int| 0 <= j < i + 1 implies (#[trigger] v[j]).name != name by {
                    if j > 0 {
                        assert(v[j] == v.drop_first()[j - 1]);
                    }
                }
            },
            None => {
                assert forall|j: int| 0 <= j < v.len() implies (#[trigger] v[j]).name != name by {
                    if j > 0 {
                        assert(v[j] == v.drop_first()[j - 1]);
                    }
                }
            },
        }
    }
}

/// Some section of `v` is named `name`.
pub open spec fn has_name(v: Seq<SectionView>, name: Seq<char>) -> bool {
    exists|j: int| 0 <= j < v.len() && v[j].name == name
}

/// Merging layouts keeps the sections of the first in place under their names and leaves a
/// section named after each section of the second.
pub proof fn lemma_merge_all_names(v: Seq<SectionView>, others: Seq<SectionView>)
    ensures
        merge_all(v, others).len() >= v.len(),
        forall|i: int| 0 <= i < v.len() ==> (#[trigger] merge_all(v, others)[i]).name == v[i].name,
        forall|k: int| 0 <= k < others.len() ==> #[trigger] has_name(merge_all(v, others), others[k].name),
    decreases others.len(),
{
    if others.len() > 0 {
        let d = others.drop_last();
        let x = others.last();
        lemma_merge_all_names(v, d);
        let m = merge_all(v, d);
        let r = merge_all(v, others);
        assert(r == merge_one(m, x));
        lemma_index_of_name(m, x.name);
        assert forall|j: int| 0 <= j < m.len() implies (#[trigger] r[j]).name == m[j].name by {
            match index_of_name(m, x.name) {
                Some(i) => {
                    if j == i {
                        assert(r[j] == m[i].merged(x));
                    }
                },
                None => {},
            }
        }
        assert(r.len() >= m.len());
        assert forall|i: int| 0 <= i < v.len() implies (#[trigger] r[i]).name == v[i].name by {
            assert(r[i].name == m[i].name);
        }
        assert forall|k: int| 0 <= k < others.len() implies #[trigger] has_name(r, others[k].name) by {
            if k < d.len() {
                assert(d[k] == others[k]);
                assert(has_name(m, d[k].name));
                let j = choose|j: int| 0 <= j < m.len() && m[j].name == d[k].name;
                assert(r[j].name == m[j].name);
            } else {
                match index_of_name(m, x.name) {
                    Some(i) => {
                        assert(r[i].name == m[i].name);
                    },
                    None => {
                        assert(r[m.len() as int] == x);
                    },
                }
            }
        }
    }
}

/// A section of `new` comes from one of `other`: it has its name and a clone of its metadata.
pub open spec fn from_other<MetaData: Clone>(other: Seq<Section<MetaData>>, s: Section<MetaData>) -> bool {
    exists|t: int|
        0 <= t < other.len() && other[t]@.name == s@.name && cloned(
            other[t].spec_metadata(),
            s.spec_metadata(),
        )
}

/// After merging `other` into `old`, giving `new`: the sections of `old` keep their metadata,
/// and each appended section carries a clone of the metadata of the section of `other` it
/// comes from.
pub open spec fn merged_metadata<MetaData: Clone>(
    old: Seq<Section<MetaData>>,
    other: Seq<Section<MetaData>>,
    new: Seq<Section<MetaData>>,
) -> bool {
    &&& new.len() >= old.len()
    &&& forall|i: int| 0 <= i < old.len() ==> (#[trigger] new[i]).spec_metadata() == old[i].spec_metadata()
    &&& forall|j: int| old.len() <= j < new.len() ==> #[trigger] from_other(other, new[j])
}

/// The names of `v` are pairwise distinct.
pub open spec fn distinct_names(v: Seq<SectionView>) -> bool {
    forall|i: int, j: int| 0 <= i < v.len() && 0 <= j < v.len() && i != j ==> #[trigger] v[i].name != #[trigger] v[j].name
}

/// Merging an empty layout changes nothing, and merging a layout whose names are distinct into
/// an empty one gives that layout.
pub proof fn lemma_merge_empty(v: Seq<SectionView>)
    ensures
        merge_all(v, Seq::empty()) == v,
        distinct_names(v) ==> merge_all(Seq::empty(), v) == v,
    decreases v.len(),
{
    if v.len() > 0 && distinct_names(v) {
        let d = v.drop_last();
        assert(distinct_names(d)) by {
            assert forall|i: int, j: int| 0 <= i < d.len() && 0 <= j < d.len() && i != j implies #[trigger] d[i].name != #[trigger] d[j].name by {
                assert(d[i] == v[i] && d[j] == v[j]);
            }
        }
        lemma_merge_empty(d);
        lemma_index_of_name(d, v.last().name);
        if let Some(i) = index_of_name(d, v.last().name) {
            assert(v[i].name == v[v.len() - 1].name);
            assert(false);
        }
        assert(merge_all(Seq::empty(), v) =~= v);
    }
}

/// List of sections for a requested layout.
#[derive(Debug, PartialEq, Clone)]
pub struct Layout<MetaData: Clone> {
    pub(crate) sections: Vec<Section<MetaData>>,
}

impl<MetaData: Clone> Layout<MetaData> {
    /// The sections, in order.
    pub open(crate) spec fn spec_sections(&self) -> Seq<Section<MetaData>> {
        self.sections@
    }

    /// The requirements of the sections, in order.
    pub open(crate) spec fn view(&self) -> Seq<SectionView> {
        section_views(self.sections@)
    }

    /// Create a new set of sections.
    pub fn new(sections: Vec<Section<MetaData>>) -> (r: Self)
        ensures
            r.spec_sections() == sections@,
    {
        Layout { sections }
    }

    /// Create an empty set of sections.
    pub fn empty() -> (r: Self)
        ensures
            r.spec_sections() == Seq::<Section<MetaData>>::empty(),
    {
        Self::new(Vec::new())
    }

    /// Extend the sections with a section.
    pub fn push(&mut self, section: Section<MetaData>)
        ensures
            final(self).spec_sections() == old(self).spec_sections().push(section),
    {
        self.sections.push(section);
    }

    /// Number of sections.
    pub fn len(&self) -> (r: usize)
        ensures
            r == self@.len(),
    {
        self.sections.len()
    }

    /// True when there is no section.
    pub fn is_empty(&self) -> (r: bool)
        ensures
            r == (self@.len() == 0),
    {
        self.sections.len() == 0
    }

    /// The sections, in order.
    pub fn as_slice(&self) -> (r: &[Section<MetaData>])
        ensures
            r@ == self.spec_sections(),
    {
        self.sections.as_slice()
    }

    /// Positions of the sections to maximize, ascending.
    pub(crate) fn maximizing_sections(&self) -> (r: Vec<usize>)
        ensures
            r@ == maximizing_positions(self@),
    {
        let mut out: Vec<usize> = Vec::new();
        let n = self.sections.len();
        for i in 0..n
            invariant
                n == self@.len(),
                out@ == maximizing_positions(self@.take(i as int)),
        {
            proof {
                assert(self@.take(i + 1).drop_last() =~= self@.take(i as int));
            }
            if self.sections[i].needs_maximizing() {
                out.push(i);
            }
        }
        proof {
            assert(self@.take(n as int) =~= self@);
        }
        out
    }

    /// Positions of the sections the solver places at a size they state, ascending.
    pub(crate) fn allocatable_sections(&self) -> (r: Vec<usize>)
        ensures
            r@ == allocatable_positions(self@),
    {
        let mut out: Vec<usize> = Vec::new();
        let n = self.sections.len();
        for i in 0..n
            invariant
                n == self@.len(),
                out@ == allocatable_positions(self@.take(i as int)),
        {
            proof {
                assert(self@.take(i + 1).drop_last() =~= self@.take(i as int));
            }
            if self.sections[i].needs_allocating() {
                out.push(i);
            }
        }
        proof {
            assert(self@.take(n as int) =~= self@);
        }
        out
    }

    /// Pages the sections placed at the size they state need, with pages of `page_size` bytes,
    /// when the sum fits in `u64`: each the larger of its requested pages and the pages holding
    /// its byte size.
    pub(crate) fn num_pages(&self, page_size: u64) -> (r: Option<u64>)
        requires
            page_size > 0,
        ensures
            r is None <==> total_needed_pages(self@, page_size) > u64::MAX,
            r matches Some(x) ==> x == total_needed_pages(self@, page_size),
    {
        proof {
            lemma_needed_pages_grow(self@, page_size, 0);
        }
        let mut acc: u64 = 0;
        let n = self.sections.len();
        for i in 0..n
            invariant
                n == self@.len(),
                page_size > 0,
                acc == total_needed_pages(self@.take(i as int), page_size),
        {
            proof {
                assert(self@.take(i + 1).drop_last() =~= self@.take(i as int));
                assert(self@.take(i + 1).last() == self.sections@[i as int]@);
            }
            let s = &self.sections[i];
            let need = if !s.needs_allocating() {
                0
            } else {
                let p = match s.pages() {
                    Some(p) => p,
                    None => 0,
                };
                let q = match s.size() {
                    Some(z) => crate::section::exec_div_ceil(z, page_size),
                    None => 0,
                };
                if p < q {
                    q
                } else {
                    p
                }
            };
            match acc.checked_add(need) {
                Some(x) => {
                    acc = x;
                },
                None => {
                    proof {
                        lemma_needed_pages_grow(self@, page_size, i + 1);
                    }
                    return None;
                },
            }
        }
        proof {
            assert(self@.take(n as int) =~= self@);
        }
        Some(acc)
    }

    /// Number of boot sections.
    pub(crate) fn num_bootable(&self) -> (r: usize)
        ensures
            r == count_boot(self@),
    {
        let mut count: usize = 0;
        let n = self.sections.len();
        for i in 0..n
            invariant
                n == self@.len(),
                count == count_boot(self@.take(i as int)),
                count <= i,
        {
            proof {
                assert(self@.take(i + 1).drop_last() =~= self@.take(i as int));
            }
            if self.sections[i].boot() {
                count = count + 1;
            }
        }
        proof {
            assert(self@.take(n as int) =~= self@);
        }
        count
    }

    /// Position of the first section named `name`.
    pub fn position(&self, name: &str) -> (r: Option<usize>)
        ensures
            match r {
                Some(i) => index_of_name(self@, name@) == Some(i as int),
                None => index_of_name(self@, name@) is None,
            },
    {
        let key = name.to_owned();
        let n = self.sections.len();
        proof {
            lemma_index_of_name(self@, name@);
        }
        for i in 0..n
            invariant
                n == self@.len(),
                key@ == name@,
                forall|j: int| 0 <= j < i ==> (#[trigger] self@[j]).name != name@,
                match index_of_name(self@, name@) {
                    Some(i) => 0 <= i < self@.len() && self@[i].name == name@ && forall|j: int|
                        0 <= j < i ==> (#[trigger] self@[j]).name != name@,
                    None => forall|j: int| 0 <= j < self@.len() ==> (#[trigger] self@[j]).name != name@,
                },
        {
            if self.sections[i].name == key {
                assert(self@[i as int].name == name@);
                return Some(i);
            }
            assert(self@[i as int].name != name@);
        }
        None
    }

    /// Searches for a section with the provided name.
    pub fn find(&self, name: &str) -> (r: Option<&Section<MetaData>>)
        ensures
            match index_of_name(self@, name@) {
                Some(i) => r == Some(&self.spec_sections()[i]),
                None => r is None,
            },
    {
        proof {
            lemma_index_of_name(self@, name@);
        }
        match self.position(name) {
            Some(i) => Some(&self.sections[i]),
            None => None,
        }
    }

    /// Merge another layout into this layout.
    ///
    /// Sections in the other layout that do not exist in this layout are added.
    /// Sections that exist in both layouts are merged with [`Section::merge`].
    pub fn merge(&mut self, other: &Self)
        ensures
            final(self)@ == merge_all(old(self)@, other@),
            merged_metadata(old(self).spec_sections(), other.spec_sections(), final(self).spec_sections()),
    {
        let n = other.sections.len();
        for k in 0..n
            invariant
                n == other@.len(),
                self@ == merge_all(old(self)@, other@.take(k as int)),
                merged_metadata(old(self).spec_sections(), other.spec_sections().take(k as int), self.spec_sections()),
        {
            proof {
                assert(other@.take(k + 1).drop_last() =~= other@.take(k as int));
            }
            let s = &other.sections[k];
            proof {
                lemma_index_of_name(self@, s@.name);
            }
            match self.position(s.name.as_str()) {
                Some(i) => {
                    let ghost before = self@;
                    let ghost before_sections = self.sections@;
                    let mut target = self.sections.remove(i);
                    target.merge(s);
                    self.sections.insert(i, target);
                    proof {
                        assert(self.sections@ =~= before_sections.update(i as int, target));
                        assert(self@ =~= before.update(i as int, before[i as int].merged(s@)));
                        assert(other.spec_sections().take(k + 1).drop_last() =~= other.spec_sections().take(k as int));
                        let o2 = other.spec_sections().take(k + 1);
                        assert forall|j: int| old(self).spec_sections().len() <= j < self.sections@.len() implies #[trigger] from_other(o2, self.sections@[j]) by {
                            assert(from_other(other.spec_sections().take(k as int), before_sections[j]));
                            let t = choose|t: int| 0 <= t < k && other.spec_sections().take(k as int)[t]@.name == before_sections[j]@.name && cloned(other.spec_sections().take(k as int)[t].spec_metadata(), before_sections[j].spec_metadata());
                            assert(o2[t] == other.spec_sections().take(k as int)[t]);
                        }
                    }
                },
                None => {
                    let ghost before_sections = self.sections@;
                    let d = s.duplicate();
                    self.sections.push(d);
                    proof {
                        assert(self@ =~= merge_one(merge_all(old(self)@, other@.take(k as int)), s@));
                        let o2 = other.spec_sections().take(k + 1);
                        assert(o2[k as int] == *s);
                        assert forall|j: int| old(self).spec_sections().len() <= j < self.sections@.len() implies #[trigger] from_other(o2, self.sections@[j]) by {
                            if j < before_sections.len() {
                                assert(self.sections@[j] == before_sections[j]);
                                assert(from_other(other.spec_sections().take(k as int), before_sections[j]));
                                let t = choose|t: int| 0 <= t < k && other.spec_sections().take(k as int)[t]@.name == before_sections[j]@.name && cloned(other.spec_sections().take(k as int)[t].spec_metadata(), before_sections[j].spec_metadata());
                                assert(o2[t] == other.spec_sections().take(k as int)[t]);
                            } else {
                                assert(self.sections@[j] == d);
                                assert(o2[k as int]@.name == d@.name);
                            }
                        }
                    }
                },
            }
        }
        proof {
            assert(other@.take(n as int) =~= other@);
            assert(other.spec_sections().take(n as int) =~= other.spec_sections());
        }
    }
}

/// Sum of the pages the sections ask for explicitly, when it fits in `u64`.
pub(crate) fn checked_page_total<MetaData: Clone>(sections: &Vec<Section<MetaData>>) -> (r: Option<u64>)
    ensures
        r is None <==> total_section_pages(section_views(sections@)) > u64::MAX,
        r matches Some(x) ==> x == total_section_pages(section_views(sections@)),
{
    proof {
        lemma_section_pages_nonneg(section_views(sections@));
    }
    let ghost v = section_views(sections@);
    let mut acc: u64 = 0;
    let n = sections.len();
    for i in 0..n
        invariant
            n == v.len(),
            v == section_views(sections@),
            acc == total_section_pages(v.take(i as int)),
    {
        proof {
            assert(v.take(i + 1).drop_last() =~= v.take(i as int));
            assert(v.take(i + 1).last() == sections@[i as int]@);
            lemma_section_pages_prefix(v, i + 1);
        }
        let p = match sections[i].pages() {
            Some(p) => p,
            None => 0,
        };
        match acc.checked_add(p) {
            Some(x) => {
                acc = x;
            },
            None => {
                proof {
                    lemma_section_pages_grow(v, i + 1);
                }
                return None;
            },
        }
    }
    proof {
        assert(v.take(n as int) =~= v);
    }
    Some(acc)
}

/// Explicit pages grow with the prefix.
pub(crate) proof fn lemma_section_pages_grow(v: Seq<SectionView>, k: int)
    requires
        0 <= k <= v.len(),
    ensures
        total_section_pages(v.take(k)) <= total_section_pages(v),
    decreases v.len() - k,
{
    if k < v.len() {
        lemma_section_pages_grow(v, k + 1);
        assert(v.take(k + 1).drop_last() =~= v.take(k));
    } else {
        assert(v.take(k) =~= v);
    }
}

/// Explicit pages of a prefix stay within those of the whole.
pub(crate) proof fn lemma_section_pages_prefix(v: Seq<SectionView>, k: int)
    requires
        0 <= k <= v.len(),
    ensures
        0 <= total_section_pages(v.take(k)) <= total_section_pages(v),
    decreases v.len(),
{
    if v.len() == 0 || k == v.len() {
        assert(v.take(k) =~= v);
        lemma_section_pages_nonneg(v);
    } else {
        assert(v.drop_last().take(k) =~= v.take(k));
        lemma_section_pages_prefix(v.drop_last(), k);
    }
}

/// Explicit page totals are never negative.
pub(crate) proof fn lemma_section_pages_nonneg(v: Seq<SectionView>)
    ensures
        total_section_pages(v) >= 0,
    decreases v.len(),
{
    if v.len() > 0 {
        lemma_section_pages_nonneg(v.drop_last());
    }
}

impl<MetaData: Clone> Default for Layout<MetaData> {
    fn default() -> (r: Self)
        ensures
            r.spec_sections() == Seq::<Section<MetaData>>::empty(),
    {
        Self::empty()
    }
}

/// The linker region of a resolved section.
pub open spec fn region_entry<MetaData: Clone>(s: ResolvedSection<MetaData>) -> (
    Seq<char>,
    u64,
    u64,
    u64,
    Option<Seq<char>>,
) {
    plain_entry(s.linker_name@, s.address, s.size)
}

/// Defines a fully resolved layout.
#[derive(Clone, Debug)]
pub struct ResolvedLayout<MetaData: Clone> {
    pub(crate) sections: Vec<ResolvedSection<MetaData>>,
}

impl<MetaData: Clone> ResolvedSection<MetaData> {
    /// Generate a [`ld_memory::MemorySection`] from this section.
    pub fn as_memory_section(&self) -> (r: ld_memory::MemorySection)
        ensures
            memory_section_entry(r) == region_entry(*self),
    {
        memory_section_new(self.linker_name.as_str(), self.address, self.size)
    }
}

impl<MetaData: Clone> From<Vec<ResolvedSection<MetaData>>> for ResolvedLayout<MetaData> {
    fn from(value: Vec<ResolvedSection<MetaData>>) -> (r: ResolvedLayout<MetaData>) {
        ResolvedLayout { sections: value }
    }
}

impl<MetaData: Clone> vstd::std_specs::convert::FromSpecImpl<Vec<ResolvedSection<MetaData>>> for ResolvedLayout<MetaData> {
    open spec fn obeys_from_spec() -> bool {
        true
    }

    closed spec fn from_spec(v: Vec<ResolvedSection<MetaData>>) -> ResolvedLayout<MetaData> {
        ResolvedLayout { sections: v }
    }
}

/// A resolved layout made from resolved sections holds them, in order.
pub proof fn lemma_resolved_layout_from<MetaData: Clone>(v: Vec<ResolvedSection<MetaData>>)
    ensures
        <ResolvedLayout<MetaData> as vstd::std_specs::convert::FromSpec<Vec<ResolvedSection<MetaData>>>>::from_spec(v)@ == v@,
{
}

impl<MetaData: Clone> ResolvedLayout<MetaData> {
    /// The resolved sections, in order.
    pub open(crate) spec fn view(&self) -> Seq<ResolvedSection<MetaData>> {
        self.sections@
    }

    /// A resolved layout made of `sections`, in order.
    pub fn from_sections(sections: Vec<ResolvedSection<MetaData>>) -> (r: Self)
        ensures
            r@ == sections@,
    {
        ResolvedLayout { sections }
    }

    /// Extend this resolved layout with other resolved sections.
    pub fn extend(&mut self, extend: Vec<ResolvedSection<MetaData>>)
        ensures
            final(self)@ == old(self)@ + extend@,
    {
        let mut extend = extend;
        self.sections.append(&mut extend);
    }

    /// Number of resolved sections.
    pub fn len(&self) -> (r: usize)
        ensures
            r == self@.len(),
    {
        self.sections.len()
    }

    /// True when there is no resolved section.
    pub fn is_empty(&self) -> (r: bool)
        ensures
            r == (self@.len() == 0),
    {
        self.sections.len() == 0
    }

    /// The resolved sections, in order.
    pub fn as_slice(&self) -> (r: &[ResolvedSection<MetaData>])
        ensures
            r@ == self@,
    {
        self.sections.as_slice()
    }

    /// Generate a [`crate::linker::LinkerMemory`] from this layout.
    pub fn into_memory(&self) -> (r: crate::linker::LinkerMemory)
        ensures
            memory_entries(r) == self@.map_values(|s: ResolvedSection<MetaData>| region_entry(s)),
    {
        let mut memory = ld_memory_new();
        let n = self.sections.len();
        for i in 0..n
            invariant
                n == self@.len(),
                memory_entries(memory) == self@.take(i as int).map_values(
                    |s: ResolvedSection<MetaData>| region_entry(s),
                ),
        {
            let section = self.sections[i].as_memory_section();
            memory = ld_memory_add_section(memory, section);
            proof {
                assert(self@.take(i + 1).map_values(|s: ResolvedSection<MetaData>| region_entry(s))
                    =~= self@.take(i as int).map_values(
                    |s: ResolvedSection<MetaData>| region_entry(s),
                ).push(region_entry(self@[i as int])));
            }
        }
        proof {
            assert(self@.take(n as int) =~= self@);
        }
        memory
    }
}

} // verus!
