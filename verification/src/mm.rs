//! Virtual-memory manager for one process: a page table mapping virtual page
//! numbers to physical frames with permission bits, plus the ordered list of
//! non-overlapping mapped areas and the heap break.

use vstd::prelude::*;
use std::collections::HashMap;
use crate::{PAGE_SIZE, MAX_BRK, MAX_PPN};

verus! {

broadcast use vstd::std_specs::hash::group_hash_axioms;

/// Access permissions of one mapped area or page-table entry.
#[derive(Clone, Copy, PartialEq, Eq, Structural, Debug)]
pub struct MapPermission {
    pub readable: bool,
    pub writable: bool,
    pub executable: bool,
    pub user: bool,
}

/// One valid page-table entry: the physical page number a virtual page maps
/// to, and the permissions it was mapped with.
#[derive(Clone, Copy, PartialEq, Eq, Structural, Debug)]
pub struct PageTableEntry {
    pub ppn: usize,
    pub perm: MapPermission,
}

/// A contiguous half-open range of virtual pages `[start_vpn, end_vpn)`
/// mapped with uniform permissions.
#[derive(Clone, Copy, PartialEq, Eq, Structural, Debug)]
pub struct MapArea {
    pub start_vpn: usize,
    pub end_vpn: usize,
    pub perm: MapPermission,
}

/// Hands out physical page numbers, never above `MAX_PPN`.
pub struct FrameAlloc {
    next: usize,
}

impl FrameAlloc {
    pub fn new() -> (r: FrameAlloc) {
        FrameAlloc { next: 0 }
    }

    /// Allocate one physical frame.
    pub fn alloc_frame(&mut self) -> (ppn: usize)
        ensures
            ppn <= MAX_PPN,
    {
        let p = self.next;
        if p < MAX_PPN {
            self.next = p + 1;
            p
        } else {
            MAX_PPN
        }
    }
}

/// True when virtual page `v` lies inside area `a`.
pub open spec fn in_area(a: MapArea, v: usize) -> bool {
    a.start_vpn <= v < a.end_vpn
}

/// True when some area of `s` contains virtual page `v`.
pub open spec fn covered(s: Seq<MapArea>, v: usize) -> bool {
    exists|i: int| 0 <= i < s.len() && in_area(s[i], v)
}

/// No two areas of `s` contain a common page.
pub open spec fn no_overlap(s: Seq<MapArea>) -> bool
    decreases s.len(),
{
    s.len() == 0 || {
        &&& forall|v: usize| #[trigger] in_area(s[0], v) ==> !covered(s.drop_first(), v)
        &&& no_overlap(s.drop_first())
    }
}

/// Every page inside an area of `s` has an entry in `pt` carrying that
/// area's permissions.
pub open spec fn areas_backed(s: Seq<MapArea>, pt: Map<usize, PageTableEntry>) -> bool
    decreases s.len(),
{
    s.len() == 0 || {
        &&& forall|v: usize| #[trigger] in_area(s[0], v)
                ==> pt.contains_key(v) && pt[v].perm == s[0].perm
        &&& areas_backed(s.drop_first(), pt)
    }
}

proof fn lemma_covered_unfold(s: Seq<MapArea>, v: usize)
    requires
        s.len() > 0,
    ensures
        covered(s, v) <==> (in_area(s[0], v) || covered(s.drop_first(), v)),
{
    if covered(s, v) {
        let i = choose|i: int| 0 <= i < s.len() && in_area(s[i], v);
        if i > 0 {
            assert(s.drop_first()[i - 1] == s[i]);
        }
    }
    if covered(s.drop_first(), v) {
        let i = choose|i: int| 0 <= i < s.drop_first().len() && in_area(s.drop_first()[i], v);
        assert(s[i + 1] == s.drop_first()[i]);
    }
}

proof fn lemma_covered_concat(x: Seq<MapArea>, y: Seq<MapArea>, v: usize)
    ensures
        covered(x + y, v) <==> (covered(x, v) || covered(y, v)),
{
    if covered(x + y, v) {
        let i = choose|i: int| 0 <= i < (x + y).len() && in_area((x + y)[i], v);
        if i < x.len() {
            assert(x[i] == (x + y)[i]);
        } else {
            assert(y[i - x.len()] == (x + y)[i]);
        }
    }
    if covered(x, v) {
        let i = choose|i: int| 0 <= i < x.len() && in_area(x[i], v);
        assert((x + y)[i] == x[i]);
    }
    if covered(y, v) {
        let i = choose|i: int| 0 <= i < y.len() && in_area(y[i], v);
        assert((x + y)[x.len() + i] == y[i]);
    }
}

proof fn lemma_no_overlap_concat(x: Seq<MapArea>, y: Seq<MapArea>)
    requires
        no_overlap(x),
        no_overlap(y),
        forall|v: usize| covered(x, v) ==> !covered(y, v),
    ensures
        no_overlap(x + y),
    decreases x.len(),
{
    if x.len() == 0 {
        assert(x + y =~= y);
    } else {
        let rest = x.drop_first();
        assert forall|v: usize| covered(rest, v) implies !covered(y, v) by {
            lemma_covered_unfold(x, v);
        }
        lemma_no_overlap_concat(rest, y);
        assert((x + y).drop_first() =~= rest + y);
        assert forall|v: usize| in_area((x + y)[0], v) implies !covered(rest + y, v) by {
            assert(in_area(x[0], v));
            assert(covered(x, v));
            lemma_covered_concat(rest, y, v);
        }
        assert(no_overlap(x + y));
    }
}

proof fn lemma_backed_concat(x: Seq<MapArea>, y: Seq<MapArea>, pt: Map<usize, PageTableEntry>)
    requires
        areas_backed(x, pt),
        areas_backed(y, pt),
    ensures
        areas_backed(x + y, pt),
    decreases x.len(),
{
    if x.len() == 0 {
        assert(x + y =~= y);
    } else {
        lemma_backed_concat(x.drop_first(), y, pt);
        assert((x + y).drop_first() =~= x.drop_first() + y);
        assert((x + y)[0] == x[0]);
        assert(areas_backed(x + y, pt));
    }
}

proof fn lemma_backed_preserve(
    s: Seq<MapArea>,
    pt1: Map<usize, PageTableEntry>,
    pt2: Map<usize, PageTableEntry>,
)
    requires
        areas_backed(s, pt1),
        forall|v: usize| #[trigger] pt1.contains_key(v) ==> pt2.contains_key(v) && pt2[v] == pt1[v],
    ensures
        areas_backed(s, pt2),
    decreases s.len(),
{
    if s.len() > 0 {
        lemma_backed_preserve(s.drop_first(), pt1, pt2);
        assert forall|v: usize| #[trigger] in_area(s[0], v)
            implies pt2.contains_key(v) && pt2[v].perm == s[0].perm by {
            assert(pt1.contains_key(v));
        }
    }
}

proof fn lemma_backed_covered(s: Seq<MapArea>, pt: Map<usize, PageTableEntry>)
    requires
        areas_backed(s, pt),
    ensures
        forall|v: usize| covered(s, v) ==> pt.contains_key(v),
    decreases s.len(),
{
    if s.len() > 0 {
        lemma_backed_covered(s.drop_first(), pt);
        assert forall|v: usize| covered(s, v) implies pt.contains_key(v) by {
            lemma_covered_unfold(s, v);
        }
    }
}

proof fn lemma_backed_at(s: Seq<MapArea>, pt: Map<usize, PageTableEntry>, i: int)
    requires
        areas_backed(s, pt),
        0 <= i < s.len(),
    ensures
        forall|v: usize| in_area(s[i], v) ==> pt.contains_key(v) && pt[v].perm == s[i].perm,
    decreases i,
{
    if i > 0 {
        lemma_backed_at(s.drop_first(), pt, i - 1);
        assert forall|v: usize| in_area(s[i], v)
            implies pt.contains_key(v) && pt[v].perm == s[i].perm by {
            assert(s.drop_first()[i - 1] == s[i]);
            assert(in_area(s.drop_first()[i - 1], v));
        }
    }
}

proof fn lemma_no_overlap_at(s: Seq<MapArea>, i: int, j: int)
    requires
        no_overlap(s),
        0 <= i < j < s.len(),
    ensures
        forall|v: usize| in_area(s[i], v) ==> !in_area(s[j], v),
    decreases i,
{
    if i == 0 {
        assert forall|v: usize| in_area(s[0], v) implies !in_area(s[j], v) by {
            if in_area(s[j], v) {
                assert(s.drop_first()[j - 1] == s[j]);
                assert(covered(s.drop_first(), v));
            }
        }
    } else {
        lemma_no_overlap_at(s.drop_first(), i - 1, j - 1);
        assert(s.drop_first()[i - 1] == s[i]);
        assert(s.drop_first()[j - 1] == s[j]);
    }
}

/// Virtual page number of the page containing byte address `addr`.
pub open spec fn vpn_floor(addr: usize) -> usize {
    addr / PAGE_SIZE
}

/// Virtual page number one past the last page touched by `[0, addr)`.
pub open spec fn vpn_ceil(addr: usize) -> usize {
    if addr % PAGE_SIZE == 0 {
        addr / PAGE_SIZE
    } else {
        (addr / PAGE_SIZE + 1) as usize
    }
}

/// No page of `[lo, hi)` has an entry in `pt`.
pub open spec fn range_free(pt: Map<usize, PageTableEntry>, lo: usize, hi: usize) -> bool {
    forall|v: usize| lo <= v < hi ==> !pt.contains_key(v)
}

/// Every page of `[lo, hi)` has an entry in `pt`.
pub open spec fn range_mapped(pt: Map<usize, PageTableEntry>, lo: usize, hi: usize) -> bool {
    forall|v: usize| lo <= v < hi ==> pt.contains_key(v)
}

/// What remains of area `a` after the pages of `[lo, hi)` are taken out:
/// the whole area if the ranges are disjoint, otherwise the parts of `a`
/// on either side of the removed range.
pub open spec fn clip_area(a: MapArea, lo: usize, hi: usize) -> Seq<MapArea> {
    if a.end_vpn <= lo || hi <= a.start_vpn {
        seq![a]
    } else {
        let left: Seq<MapArea> = if a.start_vpn < lo {
            seq![MapArea { start_vpn: a.start_vpn, end_vpn: lo, perm: a.perm }]
        } else {
            Seq::empty()
        };
        let right: Seq<MapArea> = if hi < a.end_vpn {
            seq![MapArea { start_vpn: hi, end_vpn: a.end_vpn, perm: a.perm }]
        } else {
            Seq::empty()
        };
        left + right
    }
}

/// Every area of `s`, clipped against the removed page range `[lo, hi)`.
pub open spec fn clip_areas(s: Seq<MapArea>, lo: usize, hi: usize) -> Seq<MapArea>
    decreases s.len(),
{
    if s.len() == 0 {
        Seq::empty()
    } else {
        clip_area(s[0], lo, hi) + clip_areas(s.drop_first(), lo, hi)
    }
}

/// Every area of `s` is a non-empty page range.
pub open spec fn all_areas_wf(s: Seq<MapArea>) -> bool {
    forall|i: int| 0 <= i < s.len() ==> (#[trigger] s[i]).start_vpn < s[i].end_vpn
}

proof fn lemma_covered_single(a: MapArea, v: usize)
    ensures
        covered(seq![a], v) <==> in_area(a, v),
{
    if in_area(a, v) {
        assert(in_area(seq![a][0], v));
    }
    if covered(seq![a], v) {
        let i = choose|i: int| 0 <= i < seq![a].len() && in_area(seq![a][i], v);
        assert(i == 0);
    }
}

proof fn lemma_clip_area_covered(a: MapArea, lo: usize, hi: usize, v: usize)
    requires
        lo <= hi,
    ensures
        covered(clip_area(a, lo, hi), v) <==> (in_area(a, v) && !(lo <= v < hi)),
{
    let c = clip_area(a, lo, hi);
    if a.end_vpn <= lo || hi <= a.start_vpn {
        lemma_covered_single(a, v);
    } else {
        let left: Seq<MapArea> = if a.start_vpn < lo {
            seq![MapArea { start_vpn: a.start_vpn, end_vpn: lo, perm: a.perm }]
        } else {
            Seq::empty()
        };
        let right: Seq<MapArea> = if hi < a.end_vpn {
            seq![MapArea { start_vpn: hi, end_vpn: a.end_vpn, perm: a.perm }]
        } else {
            Seq::empty()
        };
        lemma_covered_concat(left, right, v);
        if a.start_vpn < lo {
            lemma_covered_single(left[0], v);
        }
        if hi < a.end_vpn {
            lemma_covered_single(right[0], v);
        }
        assert(!covered(Seq::<MapArea>::empty(), v));
    }
}

proof fn lemma_clip_push(s: Seq<MapArea>, a: MapArea, lo: usize, hi: usize)
    ensures
        clip_areas(s.push(a), lo, hi) =~= clip_areas(s, lo, hi) + clip_area(a, lo, hi),
    decreases s.len(),
{
    if s.len() == 0 {
        assert(s.push(a)[0] == a);
        assert(s.push(a).drop_first() =~= Seq::<MapArea>::empty());
        assert(clip_areas(Seq::<MapArea>::empty(), lo, hi) =~= Seq::<MapArea>::empty());
    } else {
        assert(s.push(a).drop_first() =~= s.drop_first().push(a));
        lemma_clip_push(s.drop_first(), a, lo, hi);
        assert(s.push(a)[0] == s[0]);
    }
}

proof fn lemma_clip_covered(s: Seq<MapArea>, lo: usize, hi: usize, v: usize)
    requires
        lo <= hi,
    ensures
        covered(clip_areas(s, lo, hi), v) <==> (covered(s, v) && !(lo <= v < hi)),
    decreases s.len(),
{
    if s.len() == 0 {
        assert(!covered(s, v));
        assert(!covered(Seq::<MapArea>::empty(), v));
    } else {
        lemma_clip_covered(s.drop_first(), lo, hi, v);
        lemma_clip_area_covered(s[0], lo, hi, v);
        lemma_covered_concat(clip_area(s[0], lo, hi), clip_areas(s.drop_first(), lo, hi), v);
        lemma_covered_unfold(s, v);
    }
}

proof fn lemma_clip_all_wf(s: Seq<MapArea>, lo: usize, hi: usize)
    requires
        lo <= hi,
        all_areas_wf(s),
    ensures
        all_areas_wf(clip_areas(s, lo, hi)),
    decreases s.len(),
{
    if s.len() > 0 {
        assert(all_areas_wf(s.drop_first())) by {
            assert forall|i: int| 0 <= i < s.drop_first().len()
                implies (#[trigger] s.drop_first()[i]).start_vpn < s.drop_first()[i].end_vpn by {
                assert(s.drop_first()[i] == s[i + 1]);
            }
        }
        lemma_clip_all_wf(s.drop_first(), lo, hi);
        let c0 = clip_area(s[0], lo, hi);
        let crest = clip_areas(s.drop_first(), lo, hi);
        assert(s[0].start_vpn < s[0].end_vpn);
        assert(all_areas_wf(c0));
        assert forall|i: int| 0 <= i < (c0 + crest).len()
            implies (#[trigger] (c0 + crest)[i]).start_vpn < (c0 + crest)[i].end_vpn by {
            if i < c0.len() {
                assert((c0 + crest)[i] == c0[i]);
            } else {
                assert((c0 + crest)[i] == crest[i - c0.len()]);
            }
        }
    }
}

proof fn lemma_clip_no_overlap(s: Seq<MapArea>, lo: usize, hi: usize)
    requires
        lo <= hi,
        no_overlap(s),
    ensures
        no_overlap(clip_areas(s, lo, hi)),
    decreases s.len(),
{
    if s.len() > 0 {
        lemma_clip_no_overlap(s.drop_first(), lo, hi);
        let c0 = clip_area(s[0], lo, hi);
        let crest = clip_areas(s.drop_first(), lo, hi);
        assert(no_overlap(c0)) by {
            assert(no_overlap(Seq::<MapArea>::empty()));
            if a_overlaps(s[0], lo, hi) {
                let left: Seq<MapArea> = if s[0].start_vpn < lo {
                    seq![MapArea { start_vpn: s[0].start_vpn, end_vpn: lo, perm: s[0].perm }]
                } else {
                    Seq::empty()
                };
                let right: Seq<MapArea> = if hi < s[0].end_vpn {
                    seq![MapArea { start_vpn: hi, end_vpn: s[0].end_vpn, perm: s[0].perm }]
                } else {
                    Seq::empty()
                };
                if s[0].start_vpn < lo {
                    assert(left.drop_first() =~= Seq::<MapArea>::empty());
                }
                assert(no_overlap(left));
                if hi < s[0].end_vpn {
                    assert(right.drop_first() =~= Seq::<MapArea>::empty());
                }
                assert(no_overlap(right));
                assert forall|v: usize| covered(left, v) implies !covered(right, v) by {
                    if covered(left, v) {
                        lemma_covered_single(left[0], v);
                        if covered(right, v) {
                            lemma_covered_single(right[0], v);
                        }
                    }
                }
                lemma_no_overlap_concat(left, right);
                assert(c0 == left + right);
            } else {
                assert(c0 =~= seq![s[0]]);
                assert(c0.drop_first() =~= Seq::<MapArea>::empty());
            }
        }
        assert forall|v: usize| covered(c0, v) implies !covered(crest, v) by {
            lemma_clip_area_covered(s[0], lo, hi, v);
            lemma_clip_covered(s.drop_first(), lo, hi, v);
        }
        lemma_no_overlap_concat(c0, crest);
    }
}

/// True when area `a` overlaps the page range `[lo, hi)`.
spec fn a_overlaps(a: MapArea, lo: usize, hi: usize) -> bool {
    !(a.end_vpn <= lo || hi <= a.start_vpn)
}

proof fn lemma_clip_backed(
    s: Seq<MapArea>,
    lo: usize,
    hi: usize,
    pt0: Map<usize, PageTableEntry>,
    pt1: Map<usize, PageTableEntry>,
)
    requires
        lo <= hi,
        areas_backed(s, pt0),
        forall|v: usize| !(lo <= v < hi) && #[trigger] pt0.contains_key(v)
            ==> pt1.contains_key(v) && pt1[v] == pt0[v],
    ensures
        areas_backed(clip_areas(s, lo, hi), pt1),
    decreases s.len(),
{
    if s.len() > 0 {
        lemma_clip_backed(s.drop_first(), lo, hi, pt0, pt1);
        let c0 = clip_area(s[0], lo, hi);
        let crest = clip_areas(s.drop_first(), lo, hi);
        assert(areas_backed(c0, pt1)) by {
            assert forall|j: int, v: usize| 0 <= j < c0.len() && #[trigger] in_area(c0[j], v)
                implies pt1.contains_key(v) && pt1[v].perm == c0[j].perm by {
                assert(in_area(s[0], v) && !(lo <= v < hi));
                assert(pt0.contains_key(v) && pt0[v].perm == s[0].perm);
            }
            lemma_backed_from_index(c0, pt1);
        }
        lemma_backed_concat(c0, crest, pt1);
    }
}

proof fn lemma_backed_from_index(s: Seq<MapArea>, pt: Map<usize, PageTableEntry>)
    requires
        forall|j: int, v: usize| 0 <= j < s.len() && #[trigger] in_area(s[j], v)
            ==> pt.contains_key(v) && pt[v].perm == s[j].perm,
    ensures
        areas_backed(s, pt),
    decreases s.len(),
{
    if s.len() > 0 {
        assert forall|j: int, v: usize|
            0 <= j < s.drop_first().len() && #[trigger] in_area(s.drop_first()[j], v)
            implies pt.contains_key(v) && pt[v].perm == s.drop_first()[j].perm by {
            assert(s.drop_first()[j] == s[j + 1]);
            assert(in_area(s[j + 1], v));
        }
        lemma_backed_from_index(s.drop_first(), pt);
        assert forall|v: usize| #[trigger] in_area(s[0], v)
            implies pt.contains_key(v) && pt[v].perm == s[0].perm by {}
        assert(areas_backed(s, pt));
    }
}

/// The address space of one process.

/// The address space of one process.
pub struct AddressSpace {
    table: HashMap<usize, PageTableEntry>,
    areas: Vec<MapArea>,
    heap_base: usize,
    heap_brk: usize,
}

impl AddressSpace {
    /// The page table as a map from virtual page number to entry.
    pub closed spec fn pt(&self) -> Map<usize, PageTableEntry> {
        self.table@
    }

    /// The mapped areas, in insertion order.
    pub closed spec fn area_seq(&self) -> Seq<MapArea> {
        self.areas@
    }

    /// Base of the heap region.
    pub closed spec fn base(&self) -> usize {
        self.heap_base
    }

    /// Current heap break (one past the last heap byte).
    pub closed spec fn brk(&self) -> usize {
        self.heap_brk
    }

    /// Structural invariant: areas are non-empty, pairwise disjoint and
    /// backed one-for-one by the page table, and the heap break never falls
    /// below its base nor above the signed-result machine limit.
    pub open spec fn wf(&self) -> bool {
        &&& all_areas_wf(self.area_seq())
        &&& no_overlap(self.area_seq())
        &&& areas_backed(self.area_seq(), self.pt())
        &&& forall|v: usize| #[trigger] self.pt().contains_key(v) ==> covered(self.area_seq(), v)
        &&& forall|v: usize| #[trigger] self.pt().contains_key(v) ==> self.pt()[v].ppn <= MAX_PPN
        &&& self.base() <= self.brk() <= MAX_BRK
    }

    /// A fresh address space with nothing mapped and an empty heap starting
    /// at `heap_base`.
    pub fn new(heap_base: usize) -> (r: AddressSpace)
        requires
            heap_base <= MAX_BRK,
        ensures
            r.wf(),
            r.pt() == Map::<usize, PageTableEntry>::empty(),
            r.area_seq() == Seq::<MapArea>::empty(),
            r.base() == heap_base,
            r.brk() == heap_base,
    {
        let r = AddressSpace {
            table: HashMap::new(),
            areas: Vec::new(),
            heap_base,
            heap_brk: heap_base,
        };
        proof {
            assert(r.area_seq() =~= Seq::<MapArea>::empty());
        }
        r
    }

    /// Read-only lookup of one virtual page.
    pub fn translate(&self, vpn: usize) -> (r: Option<PageTableEntry>)
        ensures
            r == (if self.pt().contains_key(vpn) {
                Some(self.pt()[vpn])
            } else {
                None::<PageTableEntry>
            }),
    {
        match self.table.get(&vpn) {
            Some(e) => Some(*e),
            None => None,
        }
    }

    /// Map every page of `[start, end)` with permissions `perm`, drawing
    /// frames from `fa`, and record the page-rounded range as one new area.
    /// The caller must have checked that no page of the range is mapped:
    /// the manager does not re-validate.
    pub fn insert_area(&mut self, start: usize, end: usize, perm: MapPermission, fa: &mut FrameAlloc)
        requires
            old(self).wf(),
            start % PAGE_SIZE == 0,
            start < end,
            range_free(old(self).pt(), vpn_floor(start), vpn_ceil(end)),
        ensures
            final(self).wf(),
            final(self).area_seq() == old(self).area_seq().push(
                (MapArea {
                    start_vpn: vpn_floor(start),
                    end_vpn: vpn_ceil(end),
                    perm,
                })),
            forall|v: usize| vpn_floor(start) <= v < vpn_ceil(end)
                ==> #[trigger] final(self).pt().contains_key(v),
            forall|v: usize| vpn_floor(start) <= v < vpn_ceil(end)
                ==> (#[trigger] final(self).pt()[v]).perm == perm,
            forall|v: usize|
                #![trigger final(self).pt().contains_key(v)]
                #![trigger old(self).pt().contains_key(v)]
                !(vpn_floor(start) <= v < vpn_ceil(end))
                    ==> (final(self).pt().contains_key(v) <==> old(self).pt().contains_key(v))
                        && (old(self).pt().contains_key(v) ==> final(self).pt()[v] == old(self).pt()[v]),
            forall|v: usize| !(vpn_floor(start) <= v < vpn_ceil(end)) && old(self).pt().contains_key(v)
                ==> (#[trigger] final(self).pt()[v]) == old(self).pt()[v],
            final(self).base() == old(self).base(),
            final(self).brk() == old(self).brk(),
    {
        let s_vpn: usize = start / PAGE_SIZE;
        let e_vpn: usize = if end % PAGE_SIZE == 0 {
            end / PAGE_SIZE
        } else {
            end / PAGE_SIZE + 1
        };
        assert(s_vpn == vpn_floor(start));
        assert(e_vpn == vpn_ceil(end));
        assert(s_vpn < e_vpn) by {
            assert(start == PAGE_SIZE * (start / PAGE_SIZE) + start % PAGE_SIZE);
            assert(end == PAGE_SIZE * (end / PAGE_SIZE) + end % PAGE_SIZE);
        }
        self.insert_pages(s_vpn, e_vpn, perm, fa);
        proof {
            assert forall|v: usize| !(vpn_floor(start) <= v < vpn_ceil(end))
                implies (#[trigger] self.pt().contains_key(v) <==> old(self).pt().contains_key(v))
                    && (old(self).pt().contains_key(v) ==> self.pt()[v] == old(self).pt()[v]) by {
                assert(!(s_vpn <= v < e_vpn));
                if old(self).pt().contains_key(v) {
                    assert(self.pt().contains_key(v) && self.pt()[v] == old(self).pt()[v]);
                }
            }
            assert forall|v: usize| !(vpn_floor(start) <= v < vpn_ceil(end))
                && old(self).pt().contains_key(v)
                implies (#[trigger] self.pt()[v]) == old(self).pt()[v] by {
                assert(!(s_vpn <= v < e_vpn));
                assert(self.pt().contains_key(v));
            }
        }
    }

    /// Map every page of `[s_vpn, e_vpn)` with permissions `perm` and
    /// record that range as one new area; the range must be non-empty and
    /// entirely unmapped.
    #[verifier::rlimit(60)]
    fn insert_pages(&mut self, s_vpn: usize, e_vpn: usize, perm: MapPermission, fa: &mut FrameAlloc)
        requires
            old(self).wf(),
            s_vpn < e_vpn,
            range_free(old(self).pt(), s_vpn, e_vpn),
        ensures
            final(self).wf(),
            final(self).area_seq() == old(self).area_seq().push(
                (MapArea { start_vpn: s_vpn, end_vpn: e_vpn, perm })),
            forall|v: usize| s_vpn <= v < e_vpn
                ==> #[trigger] final(self).pt().contains_key(v),
            forall|v: usize| s_vpn <= v < e_vpn
                ==> (#[trigger] final(self).pt()[v]).perm == perm,
            forall|v: usize|
                #![trigger final(self).pt().contains_key(v)]
                #![trigger old(self).pt().contains_key(v)]
                !(s_vpn <= v < e_vpn)
                    ==> (final(self).pt().contains_key(v) <==> old(self).pt().contains_key(v))
                        && (old(self).pt().contains_key(v) ==> final(self).pt()[v] == old(self).pt()[v]),
            forall|v: usize| !(s_vpn <= v < e_vpn) && old(self).pt().contains_key(v)
                ==> (#[trigger] final(self).pt()[v]) == old(self).pt()[v],
            final(self).base() == old(self).base(),
            final(self).brk() == old(self).brk(),
    {
        let ghost pt0 = self.pt();
        let mut vpn: usize = s_vpn;
        while vpn < e_vpn
            invariant
                s_vpn <= vpn <= e_vpn,
                forall|v: usize| s_vpn <= v < vpn
                    ==> #[trigger] self.pt().contains_key(v) && self.pt()[v].perm == perm
                        && self.pt()[v].ppn <= MAX_PPN,
                forall|v: usize| !(s_vpn <= v < vpn)
                    ==> (#[trigger] self.pt().contains_key(v) <==> pt0.contains_key(v))
                        && (pt0.contains_key(v) ==> self.pt()[v] == pt0[v]),
                self.area_seq() == old(self).area_seq(),
                self.base() == old(self).base(),
                self.brk() == old(self).brk(),
            decreases e_vpn - vpn,
        {
            let ghost pre = self.pt();
            let ppn = fa.alloc_frame();
            self.table.insert(vpn, PageTableEntry { ppn, perm });
            proof {
                assert(self.pt() == pre.insert(vpn, (PageTableEntry { ppn, perm })));
            }
            vpn = vpn + 1;
        }
        proof {
            assert(forall|v: usize| s_vpn <= v < e_vpn
                ==> #[trigger] self.pt().contains_key(v) && self.pt()[v].perm == perm
                    && self.pt()[v].ppn <= MAX_PPN);
            assert forall|v: usize| !(s_vpn <= v < e_vpn) && #[trigger] pt0.contains_key(v)
                implies self.pt().contains_key(v) && self.pt()[v] == pt0[v] by {}
            assert forall|v: usize| #[trigger] pt0.contains_key(v)
                implies self.pt().contains_key(v) && self.pt()[v] == pt0[v] by {
                assert(!(s_vpn <= v < e_vpn));
            }
            assert forall|v: usize| !(s_vpn <= v < e_vpn) && !pt0.contains_key(v)
                implies !(#[trigger] self.pt().contains_key(v)) by {}
        }
        let ghost ptl = self.pt();
        let area = MapArea { start_vpn: s_vpn, end_vpn: e_vpn, perm };
        self.areas.push(area);
        proof {
            assert(self.pt() == ptl);
            // carry the page-table facts over the area push
            assert forall|v: usize| s_vpn <= v < e_vpn
                implies #[trigger] self.pt().contains_key(v) && self.pt()[v].perm == perm
                    && self.pt()[v].ppn <= MAX_PPN by {
                assert(ptl.contains_key(v) && ptl[v].perm == perm && ptl[v].ppn <= MAX_PPN);
            }
            assert forall|v: usize| s_vpn <= v < e_vpn
                implies (#[trigger] self.pt()[v]).perm == perm && self.pt()[v].ppn <= MAX_PPN by {
                assert(self.pt().contains_key(v));
            }
            assert forall|v: usize| !(s_vpn <= v < e_vpn)
                implies (#[trigger] self.pt().contains_key(v) <==> pt0.contains_key(v))
                    && (pt0.contains_key(v) ==> self.pt()[v] == pt0[v]) by {
                if pt0.contains_key(v) {
                    assert(ptl.contains_key(v) && ptl[v] == pt0[v]);
                } else {
                    assert(!ptl.contains_key(v));
                }
            }
            let s0 = old(self).area_seq();
            let s1 = self.area_seq();
            let pt1 = self.pt();
            assert(s1 =~= s0 + seq![area]);
            // the new area does not overlap any old one: old areas are backed
            // by entries, and the inserted range held none
            lemma_backed_covered(s0, pt0);
            assert forall|v: usize| covered(s0, v) implies !covered(seq![area], v) by {
                if covered(seq![area], v) {
                    assert(in_area(seq![area][0], v));
                }
            }
            assert(no_overlap(Seq::<MapArea>::empty()));
            assert(no_overlap(seq![area])) by {
                assert(seq![area].drop_first() =~= Seq::<MapArea>::empty());
            }
            lemma_no_overlap_concat(s0, seq![area]);
            // old areas keep their backing entries
            lemma_backed_preserve(s0, pt0, pt1);
            assert forall|v: usize| #[trigger] in_area(area, v)
                implies pt1.contains_key(v) && pt1[v].perm == perm by {
                assert(s_vpn <= v < e_vpn);
                assert(self.pt().contains_key(v));
            }
            assert(areas_backed(Seq::<MapArea>::empty(), pt1));
            assert(areas_backed(seq![area], pt1)) by {
                assert(seq![area].drop_first() =~= Seq::<MapArea>::empty());
                assert(seq![area][0] == area);
            }
            lemma_backed_concat(s0, seq![area], pt1);
            // every entry of the new table lies under some area
            assert forall|v: usize| #[trigger] pt1.contains_key(v) implies covered(s1, v) by {
                if s_vpn <= v < e_vpn {
                    assert(in_area(s1[s1.len() - 1], v));
                } else {
                    assert(pt0.contains_key(v));
                    let i = choose|i: int| 0 <= i < s0.len() && in_area(s0[i], v);
                    assert(in_area(s1[i], v));
                }
            }
            assert(final(self).wf());
        }
    }

    /// Unmap every page-table entry inside `[start, end)`, clipping the
    /// recorded areas to what remains on either side of the range. An empty
    /// page range changes nothing; pages of the range that were never mapped
    /// are simply skipped.
    #[verifier::rlimit(60)]
    pub fn shrink_area(&mut self, start: usize, end: usize)
        requires
            old(self).wf(),
            start % PAGE_SIZE == 0,
        ensures
            final(self).wf(),
            vpn_ceil(end) <= vpn_floor(start) ==> *final(self) == *old(self),
            vpn_floor(start) < vpn_ceil(end) ==> shrank(*old(self), *final(self), vpn_floor(start), vpn_ceil(end)),
    {
        let s_vpn: usize = start / PAGE_SIZE;
        let e_vpn: usize = if end % PAGE_SIZE == 0 {
            end / PAGE_SIZE
        } else {
            end / PAGE_SIZE + 1
        };
        assert(s_vpn == vpn_floor(start));
        assert(e_vpn == vpn_ceil(end));
        if e_vpn <= s_vpn {
            return;
        }
        let ghost pt0 = self.pt();
        let ghost s0 = self.area_seq();
        let mut vpn: usize = s_vpn;
        while vpn < e_vpn
            invariant
                s_vpn <= vpn <= e_vpn,
                forall|v: usize| s_vpn <= v < vpn ==> !(#[trigger] self.pt().contains_key(v)),
                forall|v: usize| !(s_vpn <= v < vpn)
                    ==> (#[trigger] self.pt().contains_key(v) <==> pt0.contains_key(v))
                        && (pt0.contains_key(v) ==> self.pt()[v] == pt0[v]),
                self.area_seq() == s0,
                self.base() == old(self).base(),
                self.brk() == old(self).brk(),
            decreases e_vpn - vpn,
        {
            let ghost pre = self.pt();
            self.table.remove(&vpn);
            proof {
                assert(self.pt() == pre.remove(vpn));
            }
            vpn = vpn + 1;
        }
        proof {
            assert forall|v: usize| !(s_vpn <= v < e_vpn) && #[trigger] pt0.contains_key(v)
                implies self.pt().contains_key(v) && self.pt()[v] == pt0[v] by {}
            assert forall|v: usize| #[trigger] pt0.contains_key(v) && !(s_vpn <= v < e_vpn)
                implies self.pt().contains_key(v) && self.pt()[v] == pt0[v] by {}
        }
        let ghost ptl = self.pt();
        let mut new_areas: Vec<MapArea> = Vec::new();
        let mut i: usize = 0;
        proof {
            assert(new_areas@ =~= clip_areas(s0.take(0), s_vpn, e_vpn));
        }
        while i < self.areas.len()
            invariant
                0 <= i <= self.areas.len(),
                self.area_seq() == s0,
                self.pt() == ptl,
                self.base() == old(self).base(),
                self.brk() == old(self).brk(),
                s_vpn < e_vpn,
                new_areas@ == clip_areas(s0.take(i as int), s_vpn, e_vpn),
            decreases self.areas.len() - i,
        {
            let a = self.areas[i];
            let ghost done = new_areas@;
            if a.end_vpn <= s_vpn || e_vpn <= a.start_vpn {
                new_areas.push(a);
                proof {
                    assert(new_areas@ =~= done + clip_area(a, s_vpn, e_vpn));
                }
            } else {
                if a.start_vpn < s_vpn {
                    new_areas.push(MapArea { start_vpn: a.start_vpn, end_vpn: s_vpn, perm: a.perm });
                }
                if e_vpn < a.end_vpn {
                    new_areas.push(MapArea { start_vpn: e_vpn, end_vpn: a.end_vpn, perm: a.perm });
                }
                proof {
                    assert(new_areas@ =~= done + clip_area(a, s_vpn, e_vpn));
                }
            }
            proof {
                assert(s0.take(i + 1) =~= s0.take(i as int).push(a));
                lemma_clip_push(s0.take(i as int), a, s_vpn, e_vpn);
                assert(new_areas@ =~= clip_areas(s0.take(i + 1), s_vpn, e_vpn));
            }
            i = i + 1;
        }
        proof {
            assert(s0.take(s0.len() as int) =~= s0);
        }
        self.areas = new_areas;
        proof {
            assert(self.pt() == ptl);
            assert(self.area_seq() == clip_areas(s0, s_vpn, e_vpn));
            // carry the page-table facts over the area replacement
            assert forall|v: usize| s_vpn <= v < e_vpn
                implies !(#[trigger] self.pt().contains_key(v)) by {
                assert(!ptl.contains_key(v));
            }
            assert forall|v: usize| !(s_vpn <= v < e_vpn)
                implies (#[trigger] self.pt().contains_key(v) <==> pt0.contains_key(v))
                    && (pt0.contains_key(v) ==> self.pt()[v] == pt0[v]) by {
                if pt0.contains_key(v) {
                    assert(ptl.contains_key(v) && ptl[v] == pt0[v]);
                } else {
                    assert(!ptl.contains_key(v));
                }
            }
            assert forall|v: usize| !(s_vpn <= v < e_vpn) && pt0.contains_key(v)
                implies (#[trigger] self.pt()[v]) == pt0[v] && self.pt()[v].ppn <= MAX_PPN by {
                assert(self.pt().contains_key(v));
                assert(pt0[v].ppn <= MAX_PPN);
            }
            // well-formedness of the clipped state
            lemma_clip_all_wf(s0, s_vpn, e_vpn);
            lemma_clip_no_overlap(s0, s_vpn, e_vpn);
            lemma_clip_backed(s0, s_vpn, e_vpn, pt0, self.pt());
            assert forall|v: usize| #[trigger] self.pt().contains_key(v)
                implies covered(self.area_seq(), v) by {
                assert(pt0.contains_key(v));
                assert(covered(s0, v));
                lemma_clip_covered(s0, s_vpn, e_vpn, v);
            }
            assert forall|v: usize| #[trigger] self.pt().contains_key(v)
                implies self.pt()[v].ppn <= MAX_PPN by {
                assert(pt0.contains_key(v));
            }
            assert(final(self).wf());
        }
    }

    /// Map the page-rounded range `[start, start + len)` with the
    /// permissions named by `port` (bit 0 readable, bit 1 writable, bit 2
    /// executable; user access always implied). Rejects a malformed `port`,
    /// a misaligned `start`, and any overlap with an existing mapping; a
    /// zero `len` with well-formed arguments succeeds without change.
    pub fn mmap(&mut self, fa: &mut FrameAlloc, start: usize, len: usize, port: usize) -> (r: isize)
        requires
            old(self).wf(),
            start + len <= usize::MAX,
        ensures
            final(self).wf(),
            mmap_post(*old(self), *final(self), r, start, len, port),
    {
        if port & 0x7usize == 0 || port & !0x7usize != 0 {
            return -1;
        }
        if start % PAGE_SIZE != 0 {
            return -1;
        }
        if len == 0 {
            return 0;
        }
        let end = start + len;
        let s_vpn: usize = start / PAGE_SIZE;
        let e_vpn: usize = if end % PAGE_SIZE == 0 {
            end / PAGE_SIZE
        } else {
            end / PAGE_SIZE + 1
        };
        assert(s_vpn == vpn_floor(start));
        assert(e_vpn == vpn_ceil(end));
        if self.range_has_mapped(s_vpn, e_vpn) {
            return -1;
        }
        let perm = MapPermission {
            readable: port & 1usize != 0,
            writable: port & 2usize != 0,
            executable: port & 4usize != 0,
            user: true,
        };
        proof {
            assert(perm == perm_of_port(port));
            assert(range_free(self.pt(), vpn_floor(start), vpn_ceil(end)));
        }
        self.insert_area(start, end, perm, fa);
        proof {
            assert(end == (start + len) as usize);
            assert(mmap_mapped(*old(self), *self, start, len, port));
        }
        0
    }

    /// Unmap the page-rounded range `[start, start + len)`. Rejects a
    /// misaligned `start` and any page of the range that is not currently
    /// mapped; nothing is changed on rejection.
    pub fn munmap(&mut self, start: usize, len: usize) -> (r: isize)
        requires
            old(self).wf(),
            start + len <= usize::MAX,
        ensures
            final(self).wf(),
            munmap_post(*old(self), *final(self), r, start, len),
    {
        if start % PAGE_SIZE != 0 {
            return -1;
        }
        let end = start + len;
        let s_vpn: usize = start / PAGE_SIZE;
        let e_vpn: usize = if end % PAGE_SIZE == 0 {
            end / PAGE_SIZE
        } else {
            end / PAGE_SIZE + 1
        };
        assert(s_vpn == vpn_floor(start));
        assert(e_vpn == vpn_ceil(end));
        if self.range_has_unmapped(s_vpn, e_vpn) {
            return -1;
        }
        self.shrink_area(start, end);
        0
    }

    /// True when some page of `[s_vpn, e_vpn)` has a page-table entry.
    fn range_has_mapped(&self, s_vpn: usize, e_vpn: usize) -> (r: bool)
        ensures
            r <==> !range_free(self.pt(), s_vpn, e_vpn),
    {
        let mut vpn: usize = s_vpn;
        while vpn < e_vpn
            invariant
                s_vpn <= vpn,
                forall|v: usize| s_vpn <= v < vpn ==> !(#[trigger] self.pt().contains_key(v)),
            decreases e_vpn - vpn,
        {
            if self.translate(vpn).is_some() {
                assert(!range_free(self.pt(), s_vpn, e_vpn));
                return true;
            }
            vpn = vpn + 1;
        }
        false
    }

    /// True when some page of `[s_vpn, e_vpn)` has no page-table entry.
    fn range_has_unmapped(&self, s_vpn: usize, e_vpn: usize) -> (r: bool)
        ensures
            r <==> !range_mapped(self.pt(), s_vpn, e_vpn),
    {
        let mut vpn: usize = s_vpn;
        while vpn < e_vpn
            invariant
                s_vpn <= vpn,
                forall|v: usize| s_vpn <= v < vpn ==> #[trigger] self.pt().contains_key(v),
            decreases e_vpn - vpn,
        {
            if self.translate(vpn).is_none() {
                assert(!range_mapped(self.pt(), s_vpn, e_vpn));
                return true;
            }
            vpn = vpn + 1;
        }
        false
    }

    /// Number of recorded areas.
    pub fn area_count(&self) -> (r: usize)
        ensures
            r == self.area_seq().len(),
    {
        self.areas.len()
    }

    /// The area at position `i`, in insertion order.
    pub fn area_at(&self, i: usize) -> (r: MapArea)
        requires
            i < self.area_seq().len(),
        ensures
            r == self.area_seq()[i as int],
    {
        self.areas[i]
    }

    /// The current heap break.
    pub fn brk_value(&self) -> (r: usize)
        ensures
            r == self.brk(),
    {
        self.heap_brk
    }

    /// The heap base.
    pub fn base_value(&self) -> (r: usize)
        ensures
            r == self.base(),
    {
        self.heap_base
    }

    /// A page-for-page copy of this address space: same mapped pages, same
    /// permissions, same areas and heap bounds, but freshly allocated
    /// physical frames, so the copy and the original diverge independently.
    pub fn clone_space(&self, fa: &mut FrameAlloc) -> (c: AddressSpace)
        requires
            self.wf(),
        ensures
            c.wf(),
            space_dup(*self, c),
    {
        let mut c = AddressSpace {
            table: HashMap::new(),
            areas: Vec::new(),
            heap_base: self.heap_base,
            heap_brk: self.heap_brk,
        };
        proof {
            assert(c.area_seq() =~= self.area_seq().take(0));
            assert(c.area_seq() =~= Seq::<MapArea>::empty());
            assert(c.wf());
        }
        let n = self.areas.len();
        let mut i: usize = 0;
        while i < n
            invariant
                0 <= i <= n,
                n == self.area_seq().len(),
                self.wf(),
                c.wf(),
                c.area_seq() == self.area_seq().take(i as int),
                c.base() == self.base(),
                c.brk() == self.brk(),
                forall|v: usize| #[trigger] c.pt().contains_key(v)
                    ==> self.pt().contains_key(v) && c.pt()[v].perm == self.pt()[v].perm,
            decreases n - i,
        {
            let a = self.areas[i];
            proof {
                assert(a == self.area_seq()[i as int]);
                assert(a.start_vpn < a.end_vpn);
                assert forall|v: usize| in_area(a, v)
                    implies !(#[trigger] c.pt().contains_key(v)) by {
                    if c.pt().contains_key(v) {
                        assert(covered(c.area_seq(), v));
                        let j = choose|j: int|
                            0 <= j < c.area_seq().len() && in_area(c.area_seq()[j], v);
                        assert(c.area_seq()[j] == self.area_seq()[j]);
                        lemma_no_overlap_at(self.area_seq(), j, i as int);
                    }
                }
            }
            c.insert_pages(a.start_vpn, a.end_vpn, a.perm, fa);
            proof {
                assert(c.area_seq() =~= self.area_seq().take(i + 1));
                lemma_backed_at(self.area_seq(), self.pt(), i as int);
                assert forall|v: usize| #[trigger] c.pt().contains_key(v)
                    implies self.pt().contains_key(v) && c.pt()[v].perm == self.pt()[v].perm by {
                    if in_area(a, v) {
                        assert(in_area(self.area_seq()[i as int], v));
                        assert(self.pt().contains_key(v));
                        assert(self.pt()[v].perm == a.perm);
                        assert(c.pt()[v].perm == a.perm);
                    }
                }
            }
            i = i + 1;
        }
        proof {
            assert(c.area_seq() =~= self.area_seq());
            lemma_backed_covered(c.area_seq(), c.pt());
            lemma_backed_covered(self.area_seq(), self.pt());
            assert forall|v: usize|
                #![trigger self.pt().contains_key(v)]
                #![trigger c.pt().contains_key(v)]
                c.pt().contains_key(v) <==> self.pt().contains_key(v) by {
                if self.pt().contains_key(v) {
                    assert(covered(self.area_seq(), v));
                    assert(covered(c.area_seq(), v));
                    assert(c.pt().contains_key(v));
                }
            }
        }
        c
    }

    /// Move the heap break by `delta` bytes and return the old break, or
    /// nothing if the new break would fall below the heap base (or above
    /// `MAX_BRK`, the machine limit of the signed result word); the page
    /// table and areas are never touched.
    pub fn change_program_brk(&mut self, delta: i32) -> (r: Option<usize>)
        requires
            old(self).wf(),
        ensures
            final(self).wf(),
            brk_post(*old(self), *final(self), r, delta),
    {
        let old_brk = self.heap_brk;
        if delta >= 0 {
            let d = delta as usize;
            if d <= MAX_BRK && old_brk <= MAX_BRK - d {
                self.heap_brk = old_brk + d;
                Some(old_brk)
            } else {
                None
            }
        } else {
            let d = (-(delta as i64)) as usize;
            if old_brk >= d && old_brk - d >= self.heap_base {
                self.heap_brk = old_brk - d;
                Some(old_brk)
            } else {
                None
            }
        }
    }
}

/// What a successful non-empty `shrink_area` of pages `[lo, hi)` does: the
/// range is gone from the page table, everything else is untouched, and the
/// areas are clipped.
pub open spec fn shrank(pre: AddressSpace, post: AddressSpace, lo: usize, hi: usize) -> bool {
    &&& forall|v: usize| lo <= v < hi ==> !(#[trigger] post.pt().contains_key(v))
    &&& forall|v: usize|
            #![trigger post.pt().contains_key(v)]
            #![trigger pre.pt().contains_key(v)]
            !(lo <= v < hi)
                ==> (post.pt().contains_key(v) <==> pre.pt().contains_key(v))
                    && (pre.pt().contains_key(v) ==> post.pt()[v] == pre.pt()[v])
    &&& forall|v: usize| !(lo <= v < hi) && pre.pt().contains_key(v)
            ==> (#[trigger] post.pt()[v]) == pre.pt()[v]
    &&& post.area_seq() == clip_areas(pre.area_seq(), lo, hi)
    &&& post.base() == pre.base()
    &&& post.brk() == pre.brk()
}

/// A well-formed `mmap` permission argument: some bit of the low three is
/// set and no higher bit is.
pub open spec fn port_valid(port: usize) -> bool {
    port & 0x7usize != 0 && port & !0x7usize == 0
}

/// The permissions a valid `port` names; user access is always implied.
pub open spec fn perm_of_port(port: usize) -> MapPermission {
    MapPermission {
        readable: port & 1usize != 0,
        writable: port & 2usize != 0,
        executable: port & 4usize != 0,
        user: true,
    }
}

/// The inputs on which `mmap` succeeds: a valid `port`, an aligned `start`,
/// and (unless `len` is zero) no page of the target range already mapped.
pub open spec fn mmap_ok(pre: AddressSpace, start: usize, len: usize, port: usize) -> bool {
    &&& port_valid(port)
    &&& start % PAGE_SIZE == 0
    &&& (len == 0 || range_free(pre.pt(), vpn_floor(start), vpn_ceil((start + len) as usize)))
}

/// The state change of a successful non-empty `mmap`: every page of the
/// rounded range is mapped with the requested permissions, nothing else
/// moves, and one new area is appended.
pub open spec fn mmap_mapped(
    pre: AddressSpace,
    post: AddressSpace,
    start: usize,
    len: usize,
    port: usize,
) -> bool {
    let s = vpn_floor(start);
    let e = vpn_ceil((start + len) as usize);
    &&& forall|v: usize| s <= v < e ==> #[trigger] post.pt().contains_key(v)
    &&& forall|v: usize| s <= v < e ==> (#[trigger] post.pt()[v]).perm == perm_of_port(port)
    &&& forall|v: usize|
            #![trigger post.pt().contains_key(v)]
            #![trigger pre.pt().contains_key(v)]
            !(s <= v < e)
                ==> (post.pt().contains_key(v) <==> pre.pt().contains_key(v))
                    && (pre.pt().contains_key(v) ==> post.pt()[v] == pre.pt()[v])
    &&& forall|v: usize| !(s <= v < e) && pre.pt().contains_key(v)
            ==> (#[trigger] post.pt()[v]) == pre.pt()[v]
    &&& post.area_seq() == pre.area_seq().push(
            (MapArea { start_vpn: s, end_vpn: e, perm: perm_of_port(port) }))
    &&& post.base() == pre.base()
    &&& post.brk() == pre.brk()
}

/// Full contract of `mmap`: 0 exactly on the inputs `mmap_ok` admits, -1
/// otherwise, failure and zero-length success leave the space untouched.
pub open spec fn mmap_post(
    pre: AddressSpace,
    post: AddressSpace,
    r: isize,
    start: usize,
    len: usize,
    port: usize,
) -> bool {
    &&& r == 0 || r == -1
    &&& (r == 0 <==> mmap_ok(pre, start, len, port))
    &&& (r == -1 ==> post == pre)
    &&& (r == 0 && len == 0 ==> post == pre)
    &&& (r == 0 && len > 0 ==> mmap_mapped(pre, post, start, len, port))
}

/// The inputs on which `munmap` succeeds: an aligned `start` and every page
/// of the rounded range currently mapped.
pub open spec fn munmap_ok(pre: AddressSpace, start: usize, len: usize) -> bool {
    &&& start % PAGE_SIZE == 0
    &&& range_mapped(pre.pt(), vpn_floor(start), vpn_ceil((start + len) as usize))
}

/// Full contract of `munmap`: 0 exactly on the inputs `munmap_ok` admits,
/// -1 otherwise and then nothing changes; success removes exactly the
/// rounded range and clips the areas.
pub open spec fn munmap_post(
    pre: AddressSpace,
    post: AddressSpace,
    r: isize,
    start: usize,
    len: usize,
) -> bool {
    &&& r == 0 || r == -1
    &&& (r == 0 <==> munmap_ok(pre, start, len))
    &&& (r == -1 ==> post == pre)
    &&& (r == 0 ==> if vpn_floor(start) < vpn_ceil((start + len) as usize) {
            shrank(pre, post, vpn_floor(start), vpn_ceil((start + len) as usize))
        } else {
            post == pre
        })
}

/// The inputs on which `change_program_brk` succeeds: the moved break does
/// not fall below the heap base. (The upper bound is the machine limit of
/// the signed word in which `sbrk` returns the break, not a policy.)
pub open spec fn brk_ok(pre: AddressSpace, delta: i32) -> bool {
    pre.base() <= pre.brk() + delta <= MAX_BRK
}

/// Full contract of `change_program_brk`: the old break comes back exactly
/// on the inputs `brk_ok` admits, the break moves by `delta`, and nothing
/// else of the address space changes; on failure the space is untouched.
pub open spec fn brk_post(pre: AddressSpace, post: AddressSpace, r: Option<usize>, delta: i32) -> bool {
    &&& (r is Some <==> brk_ok(pre, delta))
    &&& (r is Some ==> r == Some(pre.brk())
            && post.brk() == pre.brk() + delta
            && post.pt() == pre.pt()
            && post.area_seq() == pre.area_seq()
            && post.base() == pre.base())
    &&& (r is None ==> post == pre)
}

/// Two address spaces with the same mapped pages, permissions, areas and
/// heap bounds: what `fork` guarantees of the copied space (the physical
/// frames behind the pages are fresh, so the copies diverge independently).
pub open spec fn space_dup(a: AddressSpace, b: AddressSpace) -> bool {
    &&& forall|v: usize|
            #![trigger a.pt().contains_key(v)]
            #![trigger b.pt().contains_key(v)]
            b.pt().contains_key(v) <==> a.pt().contains_key(v)
    &&& forall|v: usize| a.pt().contains_key(v)
            ==> (#[trigger] b.pt()[v]).perm == a.pt()[v].perm
    &&& b.area_seq() == a.area_seq()
    &&& b.base() == a.base()
    &&& b.brk() == a.brk()
}

/// Moving the heap break by `delta` and then by `-delta` always succeeds,
/// returns to the original break, and leaves the heap exactly as it was.
/// (`delta` must not be the one value whose negation a signed word cannot
/// hold.)
pub proof fn lemma_sbrk_round_trip(
    s0: AddressSpace,
    s1: AddressSpace,
    s2: AddressSpace,
    delta: i32,
    delta_back: i32,
    r1: Option<usize>,
    r2: Option<usize>,
)
    requires
        s0.wf(),
        delta_back == -(delta as int),
        brk_post(s0, s1, r1, delta),
        r1 is Some,
        brk_post(s1, s2, r2, delta_back),
    ensures
        r2 is Some,
        r2 == Some(s1.brk()),
        s2.brk() == s0.brk(),
        s2.pt() == s0.pt(),
        s2.area_seq() == s0.area_seq(),
        s2.base() == s0.base(),
{
    assert(s1.brk() + delta_back == s0.brk());
    assert(brk_ok(s1, delta_back));
}

proof fn lemma_clip_id(s: Seq<MapArea>, lo: usize, hi: usize)
    requires
        forall|i: int| 0 <= i < s.len() ==> !a_overlaps(#[trigger] s[i], lo, hi),
    ensures
        clip_areas(s, lo, hi) =~= s,
    decreases s.len(),
{
    if s.len() > 0 {
        assert forall|i: int| 0 <= i < s.drop_first().len()
            implies !a_overlaps(#[trigger] s.drop_first()[i], lo, hi) by {
            assert(s.drop_first()[i] == s[i + 1]);
        }
        lemma_clip_id(s.drop_first(), lo, hi);
        assert(!a_overlaps(s[0], lo, hi));
        assert(clip_area(s[0], lo, hi) =~= seq![s[0]]);
    }
}

/// Unmapping the exact byte range of a just-completed successful `mmap`
/// always succeeds and restores the address space: the page table, the area
/// list, and the heap are all exactly as they were before the `mmap`.
pub proof fn lemma_mmap_munmap_round_trip(
    s0: AddressSpace,
    s1: AddressSpace,
    s2: AddressSpace,
    start: usize,
    len: usize,
    port: usize,
    r1: isize,
    r2: isize,
)
    requires
        s0.wf(),
        len > 0,
        start + len <= usize::MAX,
        mmap_post(s0, s1, r1, start, len, port),
        r1 == 0,
        munmap_post(s1, s2, r2, start, len),
    ensures
        r2 == 0,
        s2.pt() == s0.pt(),
        s2.area_seq() == s0.area_seq(),
        s2.base() == s0.base(),
        s2.brk() == s0.brk(),
{
    let s = vpn_floor(start);
    let e = vpn_ceil((start + len) as usize);
    let end = (start + len) as usize;
    assert(s < e) by {
        assert(start == PAGE_SIZE * (start / PAGE_SIZE) + start % PAGE_SIZE);
        assert(end == PAGE_SIZE * (end / PAGE_SIZE) + end % PAGE_SIZE);
    }
    assert(munmap_ok(s1, start, len));
    assert(r2 == 0);
    assert(shrank(s1, s2, s, e));
    // the page table is restored
    assert forall|v: usize| #[trigger] s2.pt().contains_key(v) <==> s0.pt().contains_key(v) by {
        if s <= v < e {
            assert(!s0.pt().contains_key(v));
        }
    }
    assert forall|v: usize| #[trigger] s0.pt().contains_key(v)
        implies s2.pt()[v] == s0.pt()[v] by {
        assert(!(s <= v < e));
        assert(s1.pt().contains_key(v) && s1.pt()[v] == s0.pt()[v]);
        assert(s2.pt().contains_key(v) && s2.pt()[v] == s1.pt()[v]);
    }
    assert(s2.pt() =~= s0.pt());
    // the area list is restored
    let a = MapArea { start_vpn: s, end_vpn: e, perm: perm_of_port(port) };
    assert(s1.area_seq() == s0.area_seq().push(a));
    lemma_clip_push(s0.area_seq(), a, s, e);
    assert(clip_area(a, s, e) =~= Seq::<MapArea>::empty());
    assert forall|i: int| 0 <= i < s0.area_seq().len()
        implies !a_overlaps(#[trigger] s0.area_seq()[i], s, e) by {
        let b = s0.area_seq()[i];
        if a_overlaps(b, s, e) {
            let v: usize = if b.start_vpn >= s { b.start_vpn } else { s };
            assert(in_area(b, v) && s <= v < e);
            lemma_backed_at(s0.area_seq(), s0.pt(), i);
            assert(s0.pt().contains_key(v));
        }
    }
    lemma_clip_id(s0.area_seq(), s, e);
    assert(s2.area_seq() =~= s0.area_seq());
}

} // verus!

