//! Address spaces: a page table plus an ordered set of non-overlapping
//! virtual regions, each backed by freshly allocated frames.
//!
//! Invariants: regions never overlap; every mapped virtual page is backed
//! by exactly one frame, owned by this address space alone; unmapping a
//! region returns its frames to the allocator.
use vstd::prelude::*;

use crate::config::{
    MAX_VPN, PAGE_SIZE, PTE_R, PTE_U, PTE_V, PTE_W, PTE_X, TRAMPOLINE_PPN, TRAMPOLINE_VPN,
    TRAP_CONTEXT_VPN, USER_STACK_PAGES,
};
use crate::frame::FrameManager;

verus! {

/// One page-table slot: the backing frame and the permission flags.
#[derive(Copy, Clone, Debug, PartialEq, Eq, Structural)]
pub struct PtEntry {
    /// Backing physical page.
    pub ppn: usize,
    /// `PTE_*` flag bits.
    pub flags: u8,
}

/// A page table: one slot per virtual page, rooted at an owned frame.
pub struct PageTable {
    /// Frame that identifies this table; its number is the space's token.
    pub root_ppn: usize,
    /// One slot per virtual page number.
    pub slots: Vec<Option<PtEntry>>,
}

/// A contiguous virtual region with uniform permissions, backed by one
/// allocated frame per page.
pub struct MapArea {
    /// First virtual page of the region.
    pub start_vpn: usize,
    /// One past the last virtual page of the region.
    pub end_vpn: usize,
    /// Permission mask (`PTE_R | PTE_W | PTE_X | PTE_U` bits).
    pub perm: u8,
    /// Backing frames, one per page, in page order.
    pub frames: Vec<usize>,
}

/// An address space: page table plus its regions.
pub struct MemorySet {
    /// The page table.
    pub pt: PageTable,
    /// The mapped regions, in insertion order.
    pub areas: Vec<MapArea>,
}

/// Index of the first area whose start page is `start`, or `s.len()` if
/// there is none.
pub open spec fn first_start(s: Seq<MapArea>, start: int) -> int
    decreases s.len(),
{
    if s.len() == 0 {
        0
    } else if s[0].start_vpn == start {
        0
    } else {
        1 + first_start(s.drop_first(), start)
    }
}

/// What `first_start` finds: the first matching index, if any.
pub proof fn lemma_first_start(s: Seq<MapArea>, start: int)
    ensures
        0 <= first_start(s, start) <= s.len(),
        first_start(s, start) < s.len() ==> s[first_start(s, start)].start_vpn == start,
        forall|j: int| 0 <= j < first_start(s, start) ==> (#[trigger] s[j]).start_vpn != start,
    decreases s.len(),
{
    if s.len() > 0 && s[0].start_vpn != start {
        lemma_first_start(s.drop_first(), start);
        assert forall|j: int| 0 <= j < first_start(s, start) implies (#[trigger] s[j]).start_vpn
            != start by {
            if j > 0 {
                assert(s.drop_first()[j - 1] == s[j]);
            }
        }
    }
}

/// `first_start` depends only on the sequence of start pages.
pub proof fn lemma_first_start_congruence(s1: Seq<MapArea>, s2: Seq<MapArea>, start: int)
    requires
        s1.len() == s2.len(),
        forall|i: int| 0 <= i < s1.len() ==> (#[trigger] s1[i]).start_vpn == s2[i].start_vpn,
    ensures
        first_start(s1, start) == first_start(s2, start),
    decreases s1.len(),
{
    if s1.len() > 0 {
        if s1[0].start_vpn != start {
            assert forall|i: int| 0 <= i < s1.drop_first().len() implies (
            #[trigger] s1.drop_first()[i]).start_vpn == s2.drop_first()[i].start_vpn by {
                assert(s1.drop_first()[i] == s1[i + 1]);
                assert(s2.drop_first()[i] == s2[i + 1]);
            }
            lemma_first_start_congruence(s1.drop_first(), s2.drop_first(), start);
        }
    }
}

/// One loadable segment of a program image: placed at its link-specified
/// virtual pages, with `data` copied to its start and the rest zeroed.
pub struct ImageSegment {
    /// First virtual page the segment occupies.
    pub start_vpn: usize,
    /// Number of pages the segment occupies.
    pub pages: usize,
    /// Permission mask derived from the segment flags.
    pub perm: u8,
    /// Initial bytes; at most `pages * PAGE_SIZE` long.
    pub data: Vec<u8>,
}

/// A parsed program image: the entry point and the loadable segments.
/// Parsing the on-disk executable format is the loader collaborator's
/// job; the kernel core consumes the parsed form.
pub struct ProgramImage {
    /// Entry point address.
    pub entry: usize,
    /// Loadable segments, in ascending address order.
    pub segments: Vec<ImageSegment>,
}

/// Every frame an address space owns is allocated in its pool.
pub proof fn lemma_owned_allocated(ms: MemorySet, fm: FrameManager)
    requires
        ms.wf_in(fm),
    ensures
        forall|p: int| #[trigger] ms.owned().contains(p) ==> fm.allocated().contains(p),
{
    assert forall|p: int| #[trigger] ms.owned().contains(p) implies fm.allocated().contains(
        p,
    ) by {
        if p != ms.pt.root_ppn as int {
            let (i, k) = choose|i: int, k: int|
                0 <= i < ms.areas@.len() && 0 <= k < ms.areas@[i].frames@.len()
                    && #[trigger] ms.areas@[i].frames@[k] as int == p;
            assert(fm.allocated().contains(ms.areas@[i].frames@[k] as int));
        }
    }
}

/// Round trip: `insert_framed_area` followed immediately by
/// `remove_region` with identical bounds restores the address space's
/// region set and page table to their prior state.  The hypotheses are
/// exactly what those two calls ensure when both succeed on a well-formed
/// space (`s0` before the insert, `s1` between, `s2` after the removal).
pub proof fn lemma_insert_remove_round_trip(
    s0: MemorySet,
    fm0: FrameManager,
    s1: MemorySet,
    s2: MemorySet,
    start: int,
    end: int,
    perm: u8,
)
    requires
        s0.wf(),
        s0.can_insert(fm0, start, end),
        s0.pt.slots@.len() == MAX_VPN,
        s1.pt.slots@.len() == MAX_VPN,
        s2.pt.slots@.len() == MAX_VPN,
        s1.regions() == s0.regions().push((start, end, perm)),
        forall|v: int|
            0 <= v < MAX_VPN && !(start <= v < end) ==> s1.pt.slots@[v] == s0.pt.slots@[v],
        exists|i: int|
            {
                &&& 0 <= i < s1.areas@.len()
                &&& (#[trigger] s1.areas@[i]).start_vpn == start
                &&& s1.areas@[i].end_vpn == end
                &&& s2.regions() == s1.regions().remove(i)
            },
        forall|v: int|
            0 <= v < MAX_VPN && !(start <= v < end) ==> s2.pt.slots@[v] == s1.pt.slots@[v],
        forall|v: int| start <= v < end ==> s0.translated(v) is None,
        forall|v: int| start <= v < end ==> s2.translated(v) is None,
    ensures
        s2.regions() == s0.regions(),
        s2.pt.slots@ == s0.pt.slots@,
{
    let i = choose|i: int|
        {
            &&& 0 <= i < s1.areas@.len()
            &&& (#[trigger] s1.areas@[i]).start_vpn == start
            &&& s1.areas@[i].end_vpn == end
            &&& s2.regions() == s1.regions().remove(i)
        };
    assert(s1.regions().len() == s1.areas@.len());
    assert(s0.regions().len() == s0.areas@.len());
    assert(s1.regions()[i].0 == start && s1.regions()[i].1 == end);
    if i < s0.areas@.len() {
        assert(s0.regions()[i] == s1.regions()[i]);
        assert(s0.areas@[i].start_vpn == start && s0.areas@[i].end_vpn == end);
        assert(end <= s0.areas@[i].start_vpn || s0.areas@[i].end_vpn <= start);
        assert(false);
    }
    assert(s2.regions() =~= s0.regions());
    assert forall|v: int| 0 <= v < MAX_VPN implies s2.pt.slots@[v] == s0.pt.slots@[v] by {
        if start <= v < end {
            assert(s2.translated(v) is None && s0.translated(v) is None);
        }
    }
    assert(s2.pt.slots@ =~= s0.pt.slots@);
}

/// Pages of the first `n` areas together.
pub open spec fn total_pages(areas: Seq<MapArea>, n: int) -> int
    decreases n,
{
    if n <= 0 {
        0
    } else {
        total_pages(areas, n - 1) + (areas[n - 1].end_vpn - areas[n - 1].start_vpn)
    }
}

/// With well-formed areas the page total grows with the prefix.
pub proof fn lemma_total_pages_mono(areas: Seq<MapArea>, i: int, j: int)
    requires
        0 <= i <= j <= areas.len(),
        forall|l: int|
            0 <= l < areas.len() ==> (#[trigger] areas[l]).start_vpn <= areas[l].end_vpn,
    ensures
        total_pages(areas, i) <= total_pages(areas, j),
    decreases j - i,
{
    if i < j {
        lemma_total_pages_mono(areas, i, j - 1);
    }
}

/// One past the highest page any of the first `n` segments occupies
/// (at least 1, so the layout never starts at page zero).
pub open spec fn segs_max_end(segs: Seq<ImageSegment>, n: int) -> int
    decreases n,
{
    if n <= 0 {
        1
    } else {
        let prev = segs_max_end(segs, n - 1);
        let e = segs[n - 1].start_vpn + segs[n - 1].pages;
        if e > prev {
            e
        } else {
            prev
        }
    }
}

/// Pages of the first `n` segments together.
pub open spec fn segs_pages(segs: Seq<ImageSegment>, n: int) -> int
    decreases n,
{
    if n <= 0 {
        0
    } else {
        segs_pages(segs, n - 1) + segs[n - 1].pages
    }
}

/// The segment page total grows with the prefix.
pub proof fn lemma_segs_pages_mono(segs: Seq<ImageSegment>, i: int, j: int)
    requires
        0 <= i <= j,
    ensures
        segs_pages(segs, i) <= segs_pages(segs, j),
    decreases j - i,
{
    if i < j {
        lemma_segs_pages_mono(segs, i, j - 1);
    }
}

/// The image is well formed and placeable: every segment is non-empty,
/// lies below the trampoline and holds no more data than its pages; the
/// segments are pairwise disjoint; and a guard page plus the user stack
/// still fit below the trap-context page.
pub open spec fn image_ok(img: ProgramImage) -> bool {
    &&& forall|i: int|
        0 <= i < img.segments@.len() ==> {
            &&& (#[trigger] img.segments@[i]).pages >= 1
            &&& img.segments@[i].start_vpn + img.segments@[i].pages <= TRAMPOLINE_VPN
            &&& img.segments@[i].data@.len() <= img.segments@[i].pages * PAGE_SIZE
        }
    &&& forall|i: int, j: int|
        0 <= i < j < img.segments@.len() ==> (#[trigger] img.segments@[i]).start_vpn
            + img.segments@[i].pages <= (#[trigger] img.segments@[j]).start_vpn
            || img.segments@[j].start_vpn + img.segments@[j].pages
            <= img.segments@[i].start_vpn
    &&& segs_max_end(img.segments@, img.segments@.len() as int) + 1 + USER_STACK_PAGES
        <= TRAP_CONTEXT_VPN
}

/// Every segment of the image stands in memory behind `ms`'s page
/// table: its data bytes at its pages, the rest of its pages zeroed.
pub open spec fn image_loaded(ms: MemorySet, fm: FrameManager, img: ProgramImage) -> bool {
    forall|a2: int, adr: int|
        #![trigger img.segments@[a2], ms.byte_at(fm, adr)]
        0 <= a2 < img.segments@.len() && img.segments@[a2].start_vpn * PAGE_SIZE <= adr
            < img.segments@[a2].start_vpn * PAGE_SIZE + img.segments@[a2].pages * PAGE_SIZE
            ==> ms.byte_at(fm, adr) == (if adr - img.segments@[a2].start_vpn * PAGE_SIZE
            < img.segments@[a2].data@.len() {
            img.segments@[a2].data@[adr - img.segments@[a2].start_vpn * PAGE_SIZE]
        } else {
            0u8
        })
}

/// Frames a build of the image consumes: the root, every segment page,
/// the user stack and the trap-context page.
pub open spec fn image_frames(img: ProgramImage) -> int {
    2 + USER_STACK_PAGES + segs_pages(img.segments@, img.segments@.len() as int)
}

/// Splitting a page-relative offset: the address `s * PAGE_SIZE + o`
/// lies on page `s + o / PAGE_SIZE` at offset `o % PAGE_SIZE`.
pub proof fn lemma_page_split(s: int, o: int)
    requires
        0 <= s,
        0 <= o,
    ensures
        (s * PAGE_SIZE + o) / PAGE_SIZE as int == s + o / PAGE_SIZE as int,
        (s * PAGE_SIZE + o) % PAGE_SIZE as int == o % PAGE_SIZE as int,
        0 <= (o % PAGE_SIZE as int) < PAGE_SIZE,
        (o / PAGE_SIZE as int) >= 0,
{
    let p = PAGE_SIZE as int;
    let q = o / p;
    let r = o % p;
    vstd::arithmetic::div_mod::lemma_fundamental_div_mod(o, p);
    vstd::arithmetic::div_mod::lemma_div_pos_is_pos(o, p);
    assert(s * p + o == p * (s + q) + r) by (nonlinear_arith)
        requires
            o == q * p + r,
    ;
    vstd::arithmetic::div_mod::lemma_div_multiples_vanish_fancy(s + q, r, p);
    vstd::arithmetic::div_mod::lemma_mod_multiples_vanish(s + q, r, p);
    vstd::arithmetic::div_mod::lemma_small_mod(r as nat, p as nat);
}

/// Flags of the fixed trampoline mapping.
pub open spec fn trampoline_flags() -> u8 {
    (PTE_V | PTE_R | PTE_X) as u8
}

impl MemorySet {
    /// The region layout: (first page, one-past-last page, permissions)
    /// per region, in insertion order.
    pub open spec fn regions(self) -> Seq<(int, int, u8)> {
        self.areas@.map_values(|a: MapArea| (a.start_vpn as int, a.end_vpn as int, a.perm))
    }

    /// Pages mapped by all regions together.
    pub open spec fn pages(self) -> int {
        total_pages(self.areas@, self.areas@.len() as int)
    }

    /// What the page-table walk yields for a virtual page.
    pub open spec fn translated(self, vpn: int) -> Option<PtEntry> {
        if 0 <= vpn < MAX_VPN {
            self.pt.slots@[vpn]
        } else {
            None
        }
    }

    /// Backing frame of a mapped page.
    pub open spec fn ppn_of(self, vpn: int) -> int {
        self.translated(vpn).unwrap().ppn as int
    }

    /// The page is mapped and user-accessible.
    pub open spec fn user_mapped(self, vpn: int) -> bool {
        self.translated(vpn) is Some && self.translated(vpn).unwrap().flags & PTE_U != 0
    }

    /// The frames this address space owns: its root frame and every
    /// region's backing frames.
    pub open spec fn owned(self) -> Set<int> {
        Set::new(
            |p: int|
                p == self.pt.root_ppn as int || exists|i: int, k: int|
                    0 <= i < self.areas@.len() && 0 <= k
                        < self.areas@[i].frames@.len() && #[trigger] self.areas@[i].frames@[k]
                        as int == p,
        )
    }

    /// Virtual page `v` lies in region `i`.
    pub open spec fn in_area(self, i: int, v: int) -> bool {
        self.areas@[i].start_vpn <= v < self.areas@[i].end_vpn
    }

    /// Structural well-formedness of the layout: slots sized, regions in
    /// bounds, sized, and pairwise disjoint, the trampoline fixed, the
    /// table exactly covering the regions, and every backing frame (and
    /// the root) distinct from every other.
    pub open spec fn wf(self) -> bool {
        &&& self.pt.slots@.len() == MAX_VPN
        &&& self.pt.root_ppn >= 1
        &&& self.pt.slots@[TRAMPOLINE_VPN as int] == Some(
            PtEntry { ppn: TRAMPOLINE_PPN, flags: trampoline_flags() },
        )
        &&& forall|i: int|
            0 <= i < self.areas@.len() ==> {
                &&& (#[trigger] self.areas@[i]).start_vpn <= self.areas@[i].end_vpn
                &&& self.areas@[i].end_vpn <= TRAMPOLINE_VPN
                &&& self.areas@[i].frames@.len() == self.areas@[i].end_vpn
                    - self.areas@[i].start_vpn
            }
        &&& forall|i: int, j: int|
            0 <= i < j < self.areas@.len() ==> (#[trigger] self.areas@[i]).end_vpn <= (
            #[trigger] self.areas@[j]).start_vpn || self.areas@[j].end_vpn
                <= self.areas@[i].start_vpn
        &&& forall|i: int, v: int|
            0 <= i < self.areas@.len() && #[trigger] self.in_area(i, v) ==> self.pt.slots@[v]
                == Some(
                PtEntry {
                    ppn: self.areas@[i].frames@[v - self.areas@[i].start_vpn],
                    flags: (self.areas@[i].perm | PTE_V) as u8,
                },
            )
        &&& forall|v: int|
            0 <= v < MAX_VPN && v != TRAMPOLINE_VPN && (forall|i: int|
                0 <= i < self.areas@.len() ==> !self.in_area(i, v))
                ==> (#[trigger] self.pt.slots@[v]) is None
        &&& forall|i: int, k: int|
            0 <= i < self.areas@.len() && 0 <= k < self.areas@[i].frames@.len()
                ==> #[trigger] self.areas@[i].frames@[k] != self.pt.root_ppn
        &&& forall|i: int, k: int, j: int, l: int|
            0 <= i < self.areas@.len() && 0 <= k < self.areas@[i].frames@.len() && 0 <= j
                < self.areas@.len() && 0 <= l < self.areas@[j].frames@.len() && (i != j || k
                != l) ==> #[trigger] self.areas@[i].frames@[k] != #[trigger] self.areas@[j].frames@[l]
    }

    /// The space is well formed and owns its frames inside pool `fm`.
    pub open spec fn wf_in(self, fm: FrameManager) -> bool {
        &&& self.wf()
        &&& fm.allocated().contains(self.pt.root_ppn as int)
        &&& forall|i: int, k: int|
            0 <= i < self.areas@.len() && 0 <= k < self.areas@[i].frames@.len()
                ==> fm.allocated().contains(#[trigger] self.areas@[i].frames@[k] as int)
    }

    /// The byte behind virtual address `a`, read through the page table.
    pub open spec fn byte_at(self, fm: FrameManager, a: int) -> u8 {
        fm.frame(self.ppn_of(a / PAGE_SIZE as int))[a % PAGE_SIZE as int]
    }

    /// The frame behind a page of region `a` is owned and allocated.
    pub proof fn lemma_area_page_owned(self, fm: FrameManager, a: int, v: int)
        requires
            self.wf_in(fm),
            0 <= a < self.areas@.len(),
            self.in_area(a, v),
        ensures
            self.ppn_of(v) == self.areas@[a].frames@[v - self.areas@[a].start_vpn] as int,
            fm.allocated().contains(self.ppn_of(v)),
            self.owned().contains(self.ppn_of(v)),
    {
        assert(self.areas@[a].frames@[v - self.areas@[a].start_vpn] as int == self.ppn_of(v));
    }

    /// Token identifying this address space's root page table.
    pub fn token(&self) -> (t: usize)
        ensures
            t == self.pt.root_ppn,
    {
        self.pt.root_ppn
    }

    /// Page-table walk: the entry mapped for `vpn`, if any.
    pub fn translate(&self, vpn: usize) -> (r: Option<PtEntry>)
        requires
            self.wf(),
        ensures
            r == self.translated(vpn as int),
    {
        if vpn < MAX_VPN {
            self.pt.slots[vpn]
        } else {
            None
        }
    }

    /// No existing region intersects `[start, end)`.  A zero-length
    /// region counts by its bounds: an empty region marks the start of a
    /// growth corridor (the heap begins as one), and a range that would
    /// swallow the marker is refused so a later `append_to` at that start
    /// can still succeed.  This is deliberately stricter than a walk of
    /// the page table, which sees no pages there.
    pub open spec fn range_free(self, start: int, end: int) -> bool {
        forall|i: int|
            0 <= i < self.areas@.len() ==> end <= (#[trigger] self.areas@[i]).start_vpn
                || self.areas@[i].end_vpn <= start
    }

    /// Exact condition under which a framed region can be registered:
    /// a non-empty range below the trampoline, intersecting no existing
    /// region, with enough frames left to back it.
    pub open spec fn can_insert(self, fm: FrameManager, start: int, end: int) -> bool {
        &&& 0 <= start < end <= TRAMPOLINE_VPN
        &&& self.range_free(start, end)
        &&& fm.avail() >= end - start
    }

    /// Register a new framed region over `[start_vpn, end_vpn)` with
    /// permissions `perm`.  Succeeds exactly under `can_insert`; on
    /// failure nothing changes; on success the region is appended, its
    /// pages are backed by fresh zeroed frames owned by nobody before,
    /// and no other frame or mapping is touched.
    #[verifier::loop_isolation(false)]
    pub fn insert_framed_area(
        &mut self,
        fm: &mut FrameManager,
        start_vpn: usize,
        end_vpn: usize,
        perm: u8,
    ) -> (r: bool)
        requires
            old(self).wf_in(*old(fm)),
            old(fm).wf(),
        ensures
            final(fm).wf(),
            final(fm).cap == old(fm).cap,
            final(self).wf_in(*final(fm)),
            r == old(self).can_insert(*old(fm), start_vpn as int, end_vpn as int),
            !r ==> {
                &&& *final(self) == *old(self)
                &&& *final(fm) == *old(fm)
            },
            r ==> {
                &&& final(self).pt.root_ppn == old(self).pt.root_ppn
                &&& final(self).regions() == old(self).regions().push(
                    (start_vpn as int, end_vpn as int, perm),
                )
                &&& forall|v: int|
                    0 <= v < MAX_VPN && !(start_vpn <= v < end_vpn)
                        ==> final(self).pt.slots@[v] == old(self).pt.slots@[v]
                &&& forall|v: int|
                    start_vpn <= v < end_vpn ==> {
                        &&& old(self).translated(v) is None
                        &&& final(self).translated(v) is Some
                        &&& final(self).translated(v).unwrap().flags == (perm | PTE_V) as u8
                    }
                &&& forall|p: int|
                    old(fm).allocated().contains(p) ==> final(fm).allocated().contains(p)
                &&& forall|v: int|
                    start_vpn <= v < end_vpn ==> !old(fm).allocated().contains(
                        final(self).ppn_of(v),
                    ) && final(fm).frame(final(self).ppn_of(v)) == crate::frame::zero_page()
                &&& forall|p: int|
                    final(self).owned().contains(p) <==> old(self).owned().contains(p) || (
                    exists|v: int| start_vpn <= v < end_vpn && final(self).ppn_of(v) == p)
                &&& forall|q: int|
                    old(fm).allocated().contains(q) ==> final(fm).frame(q) == old(fm).frame(
                        q,
                    )
                &&& forall|p: int|
                    #[trigger] final(fm).allocated().contains(p) ==> old(
                        fm,
                    ).allocated().contains(p) || final(self).owned().contains(p)
                &&& final(fm).mem@.len() >= old(fm).mem@.len()
                &&& final(fm).avail() == old(fm).avail() - (end_vpn - start_vpn)
            },
    {
        let ghost pre_self = *self;
        let ghost pre_fm = *fm;
        if !(start_vpn < end_vpn && end_vpn <= TRAMPOLINE_VPN) {
            return false;
        }
        let mut i: usize = 0;
        while i < self.areas.len()
            invariant
                *self == pre_self,
                i <= self.areas@.len(),
                forall|j: int|
                    0 <= j < i ==> end_vpn <= (#[trigger] self.areas@[j]).start_vpn
                        || self.areas@[j].end_vpn <= start_vpn,
            decreases self.areas@.len() - i,
        {
            let a = &self.areas[i];
            if !(end_vpn <= a.start_vpn || a.end_vpn <= start_vpn) {
                return false;
            }
            i += 1;
        }
        if fm.avail_frames() < end_vpn - start_vpn {
            return false;
        }
        let mut frames: Vec<usize> = Vec::new();
        let mut v: usize = start_vpn;
        while v < end_vpn
            invariant
                pre_self.wf_in(pre_fm),
                pre_fm.wf(),
                pre_self.can_insert(pre_fm, start_vpn as int, end_vpn as int),
                start_vpn <= v <= end_vpn,
                end_vpn <= TRAMPOLINE_VPN,
                fm.wf(),
                fm.cap == pre_fm.cap,
                frames@.len() == v - start_vpn,
                fm.avail() == pre_fm.avail() - (v - start_vpn),
                fm.mem@.len() >= pre_fm.mem@.len(),
                self.areas@ == pre_self.areas@,
                self.pt.root_ppn == pre_self.pt.root_ppn,
                self.pt.slots@.len() == MAX_VPN,
                forall|u: int|
                    0 <= u < MAX_VPN && !(start_vpn <= u < v) ==> self.pt.slots@[u]
                        == pre_self.pt.slots@[u],
                forall|k: int|
                    0 <= k < v - start_vpn ==> self.pt.slots@[start_vpn + k] == Some(
                        PtEntry { ppn: frames@[k], flags: (perm | PTE_V) as u8 },
                    ),
                forall|k: int|
                    0 <= k < v - start_vpn ==> !pre_fm.allocated().contains(
                        #[trigger] frames@[k] as int,
                    ) && fm.allocated().contains(frames@[k] as int) && 1 <= frames@[k]
                        < fm.mem@.len(),
                forall|k: int, l: int|
                    0 <= k < l < v - start_vpn ==> frames@[k] != frames@[l],
                forall|p: int|
                    #[trigger] fm.allocated().contains(p) <==> pre_fm.allocated().contains(p)
                        || (exists|k: int|
                        0 <= k < v - start_vpn && #[trigger] frames@[k] as int == p),
                forall|q: int|
                    pre_fm.allocated().contains(q) ==> fm.frame(q) == pre_fm.frame(q),
                forall|k: int|
                    0 <= k < v - start_vpn ==> fm.frame(#[trigger] frames@[k] as int)
                        == crate::frame::zero_page(),
            decreases end_vpn - v,
        {
            let ghost fm_prev = *fm;
            let ghost frames_prev = frames@;
            let p = fm.alloc_frame().unwrap();
            frames.push(p);
            self.pt.slots.set(v, Some(PtEntry { ppn: p, flags: perm | PTE_V }));
            proof {
                let last = frames@.len() - 1;
                assert(frames@[last] == p);
                assert forall|q: int| fm.allocated().contains(q) implies
                    pre_fm.allocated().contains(q) || (exists|k: int|
                    0 <= k <= last && frames@[k] as int == q) by {
                    if q == p as int {
                        assert(frames@[last] as int == q);
                    } else {
                        assert(fm_prev.allocated().contains(q));
                        if !pre_fm.allocated().contains(q) {
                            let k = choose|k: int|
                                0 <= k < last && #[trigger] frames_prev[k] as int == q;
                            assert(frames@[k] as int == q);
                        }
                    }
                }
                assert forall|q: int|
                    pre_fm.allocated().contains(q) || (exists|k: int|
                    0 <= k <= last && frames@[k] as int == q) implies fm.allocated().contains(
                    q,
                ) by {
                    if !pre_fm.allocated().contains(q) {
                        let k = choose|k: int| 0 <= k <= last && frames@[k] as int == q;
                        if k < last {
                            assert(frames_prev[k] as int == q);
                            assert(fm_prev.allocated().contains(q));
                        }
                    }
                }
            }
            v += 1;
        }
        let ghost mid_self = *self;
        let ghost fseq = frames@;
        self.areas.push(MapArea { start_vpn, end_vpn, perm, frames });
        proof {
            let post = *self;
            let n = pre_self.areas@.len() as int;
            assert forall|idx: int, u: int| 0 <= idx < post.areas@.len() && #[trigger] post.in_area(
                idx,
                u,
            ) implies post.pt.slots@[u] == Some(
                PtEntry {
                    ppn: post.areas@[idx].frames@[u - post.areas@[idx].start_vpn],
                    flags: (post.areas@[idx].perm | PTE_V) as u8,
                },
            ) by {
                if idx < n {
                    assert(pre_self.in_area(idx, u));
                    assert(!(start_vpn <= u < end_vpn));
                }
            }
            assert forall|u: int|
                0 <= u < MAX_VPN && u != TRAMPOLINE_VPN && (forall|idx: int|
                    0 <= idx < post.areas@.len() ==> !post.in_area(idx, u)) implies post.pt.slots@[u]
                is None by {
                assert(!post.in_area(n, u));
                assert(!(start_vpn <= u < end_vpn));
                assert forall|idx: int| 0 <= idx < pre_self.areas@.len() implies !pre_self.in_area(
                    idx,
                    u,
                ) by {
                    assert(!post.in_area(idx, u));
                }
                assert(pre_self.pt.slots@[u] is None);
                assert(post.pt.slots@[u] == pre_self.pt.slots@[u]);
            }
            assert(post.regions() =~= pre_self.regions().push(
                (start_vpn as int, end_vpn as int, perm),
            ));
            assert forall|u: int| start_vpn <= u < end_vpn implies pre_self.translated(u)
                is None by {
                assert forall|idx: int|
                    0 <= idx < pre_self.areas@.len() implies !pre_self.in_area(idx, u) by {}
                assert(pre_self.pt.slots@[u] is None);
            }
            assert forall|u: int| start_vpn <= u < end_vpn implies post.ppn_of(u)
                == post.areas@[n].frames@[u - start_vpn] as int by {
                assert(post.in_area(n, u));
            }
            assert forall|u: int| start_vpn <= u < end_vpn implies (#[trigger] post.translated(
                u,
            )) is Some by {
                assert(post.in_area(n, u));
            }
            assert forall|p: int| post.owned().contains(p) implies pre_self.owned().contains(p) || (
            exists|u: int| start_vpn <= u < end_vpn && post.ppn_of(u) == p) by {
                if p != post.pt.root_ppn as int {
                    let (idx, k) = choose|idx: int, k: int|
                        0 <= idx < post.areas@.len() && 0 <= k
                            < post.areas@[idx].frames@.len() && #[trigger] post.areas@[idx].frames@[k]
                            as int == p;
                    if idx < n {
                        assert(pre_self.areas@[idx].frames@[k] as int == p);
                        assert(pre_self.owned().contains(p));
                    } else {
                        assert(post.in_area(n, start_vpn + k));
                        assert(post.ppn_of(start_vpn + k) == p);
                    }
                }
            }
            assert forall|p: int|
                pre_self.owned().contains(p) || (exists|u: int|
                    start_vpn <= u < end_vpn && post.ppn_of(u) == p) implies post.owned().contains(
                p,
            ) by {
                if pre_self.owned().contains(p) {
                    if p != pre_self.pt.root_ppn as int {
                        let (idx, k) = choose|idx: int, k: int|
                            0 <= idx < pre_self.areas@.len() && 0 <= k
                                < pre_self.areas@[idx].frames@.len()
                                && #[trigger] pre_self.areas@[idx].frames@[k] as int == p;
                        assert(post.areas@[idx].frames@[k] as int == p);
                    }
                } else {
                    let u = choose|u: int| start_vpn <= u < end_vpn && post.ppn_of(u) == p;
                    assert(post.in_area(n, u));
                    assert(post.areas@[n].frames@[u - start_vpn] as int == p);
                }
            }
            assert forall|p: int| #[trigger] fm.allocated().contains(p) implies
                pre_fm.allocated().contains(p) || post.owned().contains(p) by {
                if !pre_fm.allocated().contains(p) {
                    let k = choose|k: int|
                        0 <= k < fseq.len() && #[trigger] fseq[k] as int == p;
                    assert(post.areas@[n].frames@[k] as int == p);
                }
            }
        }
        true
    }

    /// Some region has exactly the bounds `[start, end)`.
    pub open spec fn has_region(self, start: int, end: int) -> bool {
        exists|i: int|
            0 <= i < self.areas@.len() && (#[trigger] self.areas@[i]).start_vpn == start
                && self.areas@[i].end_vpn == end
    }

    /// Unmap exactly the region previously registered with bounds
    /// `[start_vpn, end_vpn)`.  Fails, changing nothing, when no region has
    /// exactly those bounds; on success the region's frames go back to the
    /// allocator, its pages become unmapped, and nothing else changes.
    #[verifier::loop_isolation(false)]
    pub fn remove_region(&mut self, fm: &mut FrameManager, start_vpn: usize, end_vpn: usize) -> (r:
        bool)
        requires
            old(self).wf_in(*old(fm)),
            old(fm).wf(),
        ensures
            final(fm).wf(),
            final(fm).cap == old(fm).cap,
            final(self).wf_in(*final(fm)),
            r == old(self).has_region(start_vpn as int, end_vpn as int),
            !r ==> {
                &&& *final(self) == *old(self)
                &&& *final(fm) == *old(fm)
            },
            r ==> {
                &&& final(self).pt.root_ppn == old(self).pt.root_ppn
                &&& exists|i: int|
                    {
                        &&& 0 <= i < old(self).areas@.len()
                        &&& (#[trigger] old(self).areas@[i]).start_vpn == start_vpn
                        &&& old(self).areas@[i].end_vpn == end_vpn
                        &&& final(self).regions() == old(self).regions().remove(i)
                    }
                &&& forall|v: int|
                    0 <= v < MAX_VPN && !(start_vpn <= v < end_vpn)
                        ==> final(self).pt.slots@[v] == old(self).pt.slots@[v]
                &&& forall|v: int|
                    start_vpn <= v < end_vpn ==> {
                        &&& old(self).translated(v) is Some
                        &&& final(self).translated(v) is None
                    }
                &&& final(fm).mem@ == old(fm).mem@
                &&& forall|p: int|
                    #[trigger] final(fm).allocated().contains(p) <==> old(
                        fm,
                    ).allocated().contains(p) && !(exists|v: int|
                        start_vpn <= v < end_vpn && old(self).ppn_of(v) == p)
                &&& forall|p: int|
                    #[trigger] final(self).owned().contains(p) <==> old(self).owned().contains(
                        p,
                    ) && !(exists|v: int|
                        start_vpn <= v < end_vpn && old(self).ppn_of(v) == p)
                &&& final(fm).avail() == old(fm).avail() + (end_vpn - start_vpn)
            },
    {
        let ghost pre_self = *self;
        let ghost pre_fm = *fm;
        let n = self.areas.len();
        let mut idx: usize = n;
        let mut j: usize = 0;
        while j < n
            invariant
                j <= n,
                idx == n || {
                    &&& idx < j
                    &&& self.areas@[idx as int].start_vpn == start_vpn
                    &&& self.areas@[idx as int].end_vpn == end_vpn
                },
                idx == n ==> forall|l: int|
                    0 <= l < j ==> !((#[trigger] self.areas@[l]).start_vpn == start_vpn
                        && self.areas@[l].end_vpn == end_vpn),
            decreases n - j,
        {
            if idx == n && self.areas[j].start_vpn == start_vpn && self.areas[j].end_vpn
                == end_vpn {
                idx = j;
            }
            j += 1;
        }
        if idx == n {
            return false;
        }
        let area = self.areas.remove(idx);
        let ghost a = area;
        let mut k: usize = 0;
        while k < area.frames.len()
            invariant
                k <= a.frames@.len(),
                area == a,
                a.start_vpn == start_vpn,
                a.end_vpn == end_vpn,
                a.frames@.len() == end_vpn - start_vpn,
                end_vpn <= TRAMPOLINE_VPN,
                self.areas@ == pre_self.areas@.remove(idx as int),
                self.pt.root_ppn == pre_self.pt.root_ppn,
                self.pt.slots@.len() == MAX_VPN,
                forall|u: int|
                    0 <= u < MAX_VPN && !(start_vpn <= u < start_vpn + k) ==> self.pt.slots@[u]
                        == pre_self.pt.slots@[u],
                forall|u: int|
                    start_vpn <= u < start_vpn + k ==> (#[trigger] self.pt.slots@[u]) is None,
                fm.wf(),
                fm.cap == pre_fm.cap,
                fm.mem@ == pre_fm.mem@,
                fm.avail() == pre_fm.avail() + k,
                forall|p: int|
                    #[trigger] fm.allocated().contains(p) <==> pre_fm.allocated().contains(p)
                        && !(exists|l: int|
                        0 <= l < k && #[trigger] a.frames@[l] as int == p),
                forall|l: int|
                    k <= l < a.frames@.len() ==> fm.allocated().contains(
                        #[trigger] a.frames@[l] as int,
                    ),
            decreases a.frames@.len() - k,
        {
            let ghost fm_prev = *fm;
            let p = area.frames[k];
            self.pt.slots.set(start_vpn + k, None);
            fm.dealloc_frame(p);
            proof {
                assert forall|q: int| fm.allocated().contains(q) implies
                    pre_fm.allocated().contains(q) && !(exists|l: int|
                    0 <= l < k + 1 && #[trigger] a.frames@[l] as int == q) by {
                    assert(fm_prev.allocated().contains(q));
                    if exists|l: int| 0 <= l < k + 1 && #[trigger] a.frames@[l] as int == q {
                        let l = choose|l: int|
                            0 <= l < k + 1 && #[trigger] a.frames@[l] as int == q;
                        if l < k {
                            assert(!fm_prev.allocated().contains(q));
                        } else {
                            assert(q == p as int);
                        }
                        assert(false);
                    }
                }
                assert forall|q: int|
                    pre_fm.allocated().contains(q) && !(exists|l: int|
                        0 <= l < k + 1 && #[trigger] a.frames@[l] as int == q) implies
                    fm.allocated().contains(q) by {
                    assert(a.frames@[k as int] as int != q);
                    assert(fm_prev.allocated().contains(q));
                }
                assert forall|l: int|
                    k + 1 <= l < a.frames@.len() implies fm.allocated().contains(
                        #[trigger] a.frames@[l] as int,
                    ) by {
                    assert(pre_self.areas@[idx as int].frames@[l] == a.frames@[l]);
                    assert(pre_self.areas@[idx as int].frames@[k as int] == a.frames@[
                        k as int]);
                    assert(a.frames@[l] != a.frames@[k as int]);
                }
            }
            k += 1;
        }
        proof {
            let post = *self;
            let ghost fpost = *fm;
            assert forall|i2: int, u: int| 0 <= i2 < post.areas@.len() && #[trigger] post.in_area(
                i2,
                u,
            ) implies post.pt.slots@[u] == Some(
                PtEntry {
                    ppn: post.areas@[i2].frames@[u - post.areas@[i2].start_vpn],
                    flags: (post.areas@[i2].perm | PTE_V) as u8,
                },
            ) by {
                let iorig: int = if i2 < idx {
                    i2
                } else {
                    i2 + 1
                };
                assert(post.areas@[i2] == pre_self.areas@[iorig]);
                assert(pre_self.in_area(iorig, u));
                assert(!(start_vpn <= u < end_vpn)) by {
                    assert(pre_self.in_area(idx as int, u) ==> false);
                }
            }
            assert forall|u: int|
                0 <= u < MAX_VPN && u != TRAMPOLINE_VPN && (forall|i2: int|
                    0 <= i2 < post.areas@.len() ==> !post.in_area(i2, u)) implies (
            #[trigger] post.pt.slots@[u]) is None by {
                if !(start_vpn <= u < end_vpn) {
                    assert forall|iorig: int|
                        0 <= iorig < pre_self.areas@.len() implies !pre_self.in_area(
                        iorig,
                        u,
                    ) by {
                        if iorig != idx {
                            let i2: int = if iorig < idx {
                                iorig
                            } else {
                                iorig - 1
                            };
                            assert(post.areas@[i2] == pre_self.areas@[iorig]);
                            assert(!post.in_area(i2, u));
                        }
                    }
                    assert(pre_self.pt.slots@[u] is None);
                    assert(post.pt.slots@[u] == pre_self.pt.slots@[u]);
                }
            }
            assert forall|i2: int, k2: int, j2: int, l2: int|
                0 <= i2 < post.areas@.len() && 0 <= k2 < post.areas@[i2].frames@.len() && 0
                    <= j2 < post.areas@.len() && 0 <= l2 < post.areas@[j2].frames@.len() && (
            i2 != j2 || k2 != l2) implies #[trigger] post.areas@[i2].frames@[k2]
                != #[trigger] post.areas@[j2].frames@[l2] by {
                let io: int = if i2 < idx {
                    i2
                } else {
                    i2 + 1
                };
                let jo: int = if j2 < idx {
                    j2
                } else {
                    j2 + 1
                };
                assert(post.areas@[i2] == pre_self.areas@[io]);
                assert(post.areas@[j2] == pre_self.areas@[jo]);
            }
            assert forall|i2: int, k2: int|
                0 <= i2 < post.areas@.len() && 0 <= k2
                    < post.areas@[i2].frames@.len() implies fpost.allocated().contains(
                #[trigger] post.areas@[i2].frames@[k2] as int,
            ) && post.areas@[i2].frames@[k2] != post.pt.root_ppn by {
                let io: int = if i2 < idx {
                    i2
                } else {
                    i2 + 1
                };
                assert(post.areas@[i2] == pre_self.areas@[io]);
                assert(pre_fm.allocated().contains(post.areas@[i2].frames@[k2] as int));
                if exists|l: int|
                    0 <= l < a.frames@.len() && #[trigger] a.frames@[l] as int
                        == post.areas@[i2].frames@[k2] as int {
                    let l = choose|l: int|
                        0 <= l < a.frames@.len() && #[trigger] a.frames@[l] as int
                            == post.areas@[i2].frames@[k2] as int;
                    assert(pre_self.areas@[idx as int].frames@[l]
                        == pre_self.areas@[io].frames@[k2]);
                    assert(false);
                }
            }
            assert(fpost.allocated().contains(post.pt.root_ppn as int)) by {
                if exists|l: int|
                    0 <= l < a.frames@.len() && #[trigger] a.frames@[l] as int
                        == post.pt.root_ppn as int {
                    let l = choose|l: int|
                        0 <= l < a.frames@.len() && #[trigger] a.frames@[l] as int
                            == post.pt.root_ppn as int;
                    assert(pre_self.areas@[idx as int].frames@[l] == pre_self.pt.root_ppn);
                    assert(false);
                }
            }
            assert(post.regions() =~= pre_self.regions().remove(idx as int));
            assert forall|u: int| start_vpn <= u < end_vpn implies (
            #[trigger] pre_self.translated(u)) is Some by {
                assert(pre_self.in_area(idx as int, u));
            }
            assert forall|u: int| start_vpn <= u < end_vpn implies pre_self.ppn_of(u)
                == a.frames@[u - start_vpn] as int by {
                assert(pre_self.in_area(idx as int, u));
            }
            assert forall|p: int| #[trigger] fpost.allocated().contains(p) <==> pre_fm.allocated().contains(p)
                && !(exists|v: int|
                start_vpn <= v < end_vpn && pre_self.ppn_of(v) == p) by {
                if exists|l: int|
                    0 <= l < a.frames@.len() && #[trigger] a.frames@[l] as int == p {
                    let l = choose|l: int|
                        0 <= l < a.frames@.len() && #[trigger] a.frames@[l] as int == p;
                    assert(pre_self.ppn_of(start_vpn + l) == p);
                    assert(exists|v: int|
                        start_vpn <= v < end_vpn && pre_self.ppn_of(v) == p);
                }
                if exists|v: int| start_vpn <= v < end_vpn && pre_self.ppn_of(v) == p {
                    let v = choose|v: int|
                        start_vpn <= v < end_vpn && pre_self.ppn_of(v) == p;
                    assert(a.frames@[v - start_vpn] as int == p);
                }
            }
            assert forall|p: int| #[trigger] post.owned().contains(p) <==> pre_self.owned().contains(
                p,
            ) && !(exists|v: int|
                start_vpn <= v < end_vpn && pre_self.ppn_of(v) == p) by {
                if post.owned().contains(p) {
                    if p != post.pt.root_ppn as int {
                        let (i2, k2) = choose|i2: int, k2: int|
                            0 <= i2 < post.areas@.len() && 0 <= k2
                                < post.areas@[i2].frames@.len()
                                && #[trigger] post.areas@[i2].frames@[k2] as int == p;
                        let io: int = if i2 < idx {
                            i2
                        } else {
                            i2 + 1
                        };
                        assert(post.areas@[i2] == pre_self.areas@[io]);
                        assert(pre_self.areas@[io].frames@[k2] as int == p);
                        assert(pre_self.owned().contains(p));
                        if exists|v: int|
                            start_vpn <= v < end_vpn && pre_self.ppn_of(v) == p {
                            let v = choose|v: int|
                                start_vpn <= v < end_vpn && pre_self.ppn_of(v) == p;
                            assert(pre_self.areas@[idx as int].frames@[v - start_vpn]
                                == pre_self.areas@[io].frames@[k2]);
                            assert(false);
                        }
                    } else {
                        assert(pre_self.owned().contains(p));
                        assert(fpost.allocated().contains(p));
                    }
                } else {
                    if pre_self.owned().contains(p) && !(exists|v: int|
                        start_vpn <= v < end_vpn && pre_self.ppn_of(v) == p) {
                        if p != pre_self.pt.root_ppn as int {
                            let (io, k2) = choose|io: int, k2: int|
                                0 <= io < pre_self.areas@.len() && 0 <= k2
                                    < pre_self.areas@[io].frames@.len()
                                    && #[trigger] pre_self.areas@[io].frames@[k2] as int == p;
                            if io == idx {
                                assert(pre_self.ppn_of(start_vpn + k2) == p);
                                assert(false);
                            } else {
                                let i2: int = if io < idx {
                                    io
                                } else {
                                    io - 1
                                };
                                assert(post.areas@[i2] == pre_self.areas@[io]);
                                assert(post.areas@[i2].frames@[k2] as int == p);
                                assert(post.owned().contains(p));
                            }
                        }
                        assert(false);
                    }
                }
            }
        }
        true
    }

    /// No region other than region `excl` intersects `[start, end)`.
    pub open spec fn range_free_except(self, excl: int, start: int, end: int) -> bool {
        forall|i: int|
            0 <= i < self.areas@.len() && i != excl ==> end <= (
            #[trigger] self.areas@[i]).start_vpn || self.areas@[i].end_vpn <= start
    }

    /// Exact condition under which the region starting at `start` can grow
    /// to `new_end`: the region exists, grows, stays below the trampoline,
    /// meets no other region, and enough frames are left.
    pub open spec fn can_append(self, fm: FrameManager, start: int, new_end: int) -> bool {
        let i = first_start(self.areas@, start);
        &&& i < self.areas@.len()
        &&& self.areas@[i].end_vpn <= new_end
        &&& new_end <= TRAMPOLINE_VPN
        &&& self.range_free_except(i, self.areas@[i].start_vpn as int, new_end)
        &&& fm.avail() >= new_end - self.areas@[i].end_vpn
    }

    /// Exact condition under which the region starting at `start` can
    /// shrink to `new_end`.
    pub open spec fn can_shrink(self, start: int, new_end: int) -> bool {
        let i = first_start(self.areas@, start);
        &&& i < self.areas@.len()
        &&& self.areas@[i].start_vpn <= new_end <= self.areas@[i].end_vpn
    }

    /// Grow the upper bound of the region that starts at `start_vpn` (the
    /// heap) to `new_end_vpn`, backing the new pages with fresh zeroed
    /// frames.  Succeeds exactly under `can_append`; on failure nothing
    /// changes.
    #[verifier::loop_isolation(false)]
    pub fn append_to(&mut self, fm: &mut FrameManager, start_vpn: usize, new_end_vpn: usize) -> (r:
        bool)
        requires
            old(self).wf_in(*old(fm)),
            old(fm).wf(),
        ensures
            final(fm).wf(),
            final(fm).cap == old(fm).cap,
            final(self).wf_in(*final(fm)),
            r == old(self).can_append(*old(fm), start_vpn as int, new_end_vpn as int),
            !r ==> {
                &&& *final(self) == *old(self)
                &&& *final(fm) == *old(fm)
            },
            r ==> {
                let i = first_start(old(self).areas@, start_vpn as int);
                let e0 = old(self).areas@[i].end_vpn as int;
                &&& final(self).pt.root_ppn == old(self).pt.root_ppn
                &&& final(self).regions() == old(self).regions().update(
                    i,
                    (start_vpn as int, new_end_vpn as int, old(self).areas@[i].perm),
                )
                &&& forall|v: int|
                    0 <= v < MAX_VPN && !(e0 <= v < new_end_vpn)
                        ==> final(self).pt.slots@[v] == old(self).pt.slots@[v]
                &&& forall|v: int|
                    e0 <= v < new_end_vpn ==> {
                        &&& old(self).translated(v) is None
                        &&& final(self).translated(v) is Some
                    }
                &&& forall|p: int|
                    old(fm).allocated().contains(p) ==> final(fm).allocated().contains(p)
                &&& forall|v: int|
                    e0 <= v < new_end_vpn ==> !old(fm).allocated().contains(
                        final(self).ppn_of(v),
                    ) && final(fm).frame(final(self).ppn_of(v)) == crate::frame::zero_page()
                &&& forall|p: int|
                    final(self).owned().contains(p) <==> old(self).owned().contains(p) || (
                    exists|v: int| e0 <= v < new_end_vpn && final(self).ppn_of(v) == p)
                &&& forall|q: int|
                    old(fm).allocated().contains(q) ==> final(fm).frame(q) == old(fm).frame(
                        q,
                    )
                &&& forall|p: int|
                    #[trigger] final(fm).allocated().contains(p) ==> old(
                        fm,
                    ).allocated().contains(p) || final(self).owned().contains(p)
                &&& final(fm).mem@.len() >= old(fm).mem@.len()
                &&& final(fm).avail() == old(fm).avail() - (new_end_vpn - e0)
            },
    {
        let ghost pre_self = *self;
        let ghost pre_fm = *fm;
        proof {
            lemma_first_start(pre_self.areas@, start_vpn as int);
        }
        let n = self.areas.len();
        let mut idx: usize = n;
        let mut j: usize = 0;
        while j < n
            invariant
                j <= n,
                idx == n || {
                    &&& idx < j
                    &&& self.areas@[idx as int].start_vpn == start_vpn
                    &&& forall|l: int|
                        0 <= l < idx ==> (#[trigger] self.areas@[l]).start_vpn != start_vpn
                },
                idx == n ==> forall|l: int|
                    0 <= l < j ==> (#[trigger] self.areas@[l]).start_vpn != start_vpn,
            decreases n - j,
        {
            if idx == n && self.areas[j].start_vpn == start_vpn {
                idx = j;
            }
            j += 1;
        }
        if idx == n {
            return false;
        }
        proof {
            assert(idx as int == first_start(pre_self.areas@, start_vpn as int));
        }
        let old_end = self.areas[idx].end_vpn;
        if !(old_end <= new_end_vpn && new_end_vpn <= TRAMPOLINE_VPN) {
            return false;
        }
        let start0_chk = self.areas[idx].start_vpn;
        let mut t: usize = 0;
        while t < n
            invariant
                t <= n,
                *self == pre_self,
                forall|l: int|
                    0 <= l < t && l != idx as int ==> new_end_vpn <= (
                    #[trigger] self.areas@[l]).start_vpn || self.areas@[l].end_vpn
                        <= start0_chk,
            decreases n - t,
        {
            if t != idx {
                let b = &self.areas[t];
                if !(new_end_vpn <= b.start_vpn || b.end_vpn <= start0_chk) {
                    return false;
                }
            }
            t += 1;
        }
        if fm.avail_frames() < new_end_vpn - old_end {
            return false;
        }
        let mut area = self.areas.remove(idx);
        let ghost a0 = area;
        let perm = area.perm;
        let start0 = area.start_vpn;
        let mut v: usize = old_end;
        while v < new_end_vpn
            invariant
                old_end <= v <= new_end_vpn,
                area.start_vpn == a0.start_vpn,
                area.end_vpn == a0.end_vpn,
                area.perm == a0.perm,
                area.frames@.len() == a0.frames@.len() + (v - old_end),
                forall|k: int| 0 <= k < a0.frames@.len() ==> area.frames@[k] == a0.frames@[k],
                self.areas@ == pre_self.areas@.remove(idx as int),
                self.pt.root_ppn == pre_self.pt.root_ppn,
                self.pt.slots@.len() == MAX_VPN,
                fm.wf(),
                fm.cap == pre_fm.cap,
                fm.avail() == pre_fm.avail() - (v - old_end),
                fm.mem@.len() >= pre_fm.mem@.len(),
                forall|u: int|
                    0 <= u < MAX_VPN && !(old_end <= u < v) ==> self.pt.slots@[u]
                        == pre_self.pt.slots@[u],
                forall|k: int|
                    a0.frames@.len() <= k < area.frames@.len() ==> self.pt.slots@[start0 + k]
                        == Some(
                        PtEntry { ppn: area.frames@[k], flags: (perm | PTE_V) as u8 },
                    ),
                forall|k: int|
                    a0.frames@.len() <= k < area.frames@.len() ==> {
                        &&& !pre_fm.allocated().contains(#[trigger] area.frames@[k] as int)
                        &&& fm.allocated().contains(area.frames@[k] as int)
                        &&& 1 <= area.frames@[k] < fm.mem@.len()
                        &&& fm.frame(area.frames@[k] as int) == crate::frame::zero_page()
                    },
                forall|k: int, l: int|
                    a0.frames@.len() <= k < l < area.frames@.len() ==> area.frames@[k]
                        != area.frames@[l],
                forall|p: int|
                    #[trigger] fm.allocated().contains(p) <==> pre_fm.allocated().contains(p)
                        || (exists|k: int|
                        a0.frames@.len() <= k < area.frames@.len()
                            && #[trigger] area.frames@[k] as int == p),
                forall|q: int|
                    pre_fm.allocated().contains(q) ==> fm.frame(q) == pre_fm.frame(q),
            decreases new_end_vpn - v,
        {
            let ghost fm_prev = *fm;
            let ghost frames_prev = area.frames@;
            let p = fm.alloc_frame().unwrap();
            area.frames.push(p);
            self.pt.slots.set(v, Some(PtEntry { ppn: p, flags: perm | PTE_V }));
            proof {
                let base = a0.frames@.len() as int;
                let last = area.frames@.len() - 1;
                assert(area.frames@[last] == p);
                assert(start0 + last == v as int);
                assert forall|q: int| fm.allocated().contains(q) implies
                    pre_fm.allocated().contains(q) || (exists|k: int|
                    base <= k <= last && #[trigger] area.frames@[k] as int == q) by {
                    if q == p as int {
                        assert(area.frames@[last] as int == q);
                    } else {
                        assert(fm_prev.allocated().contains(q));
                        if !pre_fm.allocated().contains(q) {
                            let k = choose|k: int|
                                base <= k < last && #[trigger] frames_prev[k] as int == q;
                            assert(area.frames@[k] as int == q);
                        }
                    }
                }
                assert forall|q: int|
                    pre_fm.allocated().contains(q) || (exists|k: int|
                    base <= k <= last && #[trigger] area.frames@[k] as int == q) implies
                    fm.allocated().contains(q) by {
                    if !pre_fm.allocated().contains(q) {
                        let k = choose|k: int|
                            base <= k <= last && #[trigger] area.frames@[k] as int == q;
                        if k < last {
                            assert(frames_prev[k] as int == q);
                            assert(fm_prev.allocated().contains(q));
                        }
                    }
                }
            }
            v += 1;
        }
        area.end_vpn = new_end_vpn;
        let ghost a1 = area;
        self.areas.insert(idx, area);
        proof {
            let post = *self;
            let i = idx as int;
            let e0 = old_end as int;
            assert(post.areas@ =~= pre_self.areas@.update(i, a1));
            lemma_first_start_congruence(post.areas@, pre_self.areas@, start_vpn as int);
            assert forall|i2: int, u: int| 0 <= i2 < post.areas@.len() && #[trigger] post.in_area(
                i2,
                u,
            ) implies post.pt.slots@[u] == Some(
                PtEntry {
                    ppn: post.areas@[i2].frames@[u - post.areas@[i2].start_vpn],
                    flags: (post.areas@[i2].perm | PTE_V) as u8,
                },
            ) by {
                if i2 != i {
                    assert(pre_self.in_area(i2, u));
                    assert(!(e0 <= u < new_end_vpn));
                } else {
                    if u < e0 {
                        assert(pre_self.in_area(i, u));
                        assert(!(e0 <= u < new_end_vpn));
                    }
                }
            }
            assert forall|u: int|
                0 <= u < MAX_VPN && u != TRAMPOLINE_VPN && (forall|i2: int|
                    0 <= i2 < post.areas@.len() ==> !post.in_area(i2, u)) implies (
            #[trigger] post.pt.slots@[u]) is None by {
                assert(!post.in_area(i, u));
                assert(!(e0 <= u < new_end_vpn));
                assert forall|i2: int| 0 <= i2 < pre_self.areas@.len() implies !pre_self.in_area(
                    i2,
                    u,
                ) by {
                    assert(!post.in_area(i2, u));
                }
                assert(pre_self.pt.slots@[u] is None);
                assert(post.pt.slots@[u] == pre_self.pt.slots@[u]);
            }
            assert(post.regions() =~= pre_self.regions().update(
                i,
                (start_vpn as int, new_end_vpn as int, pre_self.areas@[i].perm),
            ));
            assert forall|u: int| e0 <= u < new_end_vpn implies (#[trigger] pre_self.translated(
                u,
            )) is None by {
                assert forall|i2: int| 0 <= i2 < pre_self.areas@.len() implies !pre_self.in_area(
                    i2,
                    u,
                ) by {}
                assert(pre_self.pt.slots@[u] is None);
            }
            assert forall|u: int| e0 <= u < new_end_vpn implies (#[trigger] post.translated(
                u,
            )) is Some && post.ppn_of(u) == a1.frames@[u - start0] as int by {
                assert(post.in_area(i, u));
            }
            let base = a0.frames@.len() as int;
            assert forall|i2: int, k2: int|
                0 <= i2 < post.areas@.len() && 0 <= k2
                    < post.areas@[i2].frames@.len() implies fm.allocated().contains(
                #[trigger] post.areas@[i2].frames@[k2] as int,
            ) && post.areas@[i2].frames@[k2] != post.pt.root_ppn by {
                if i2 == i && k2 >= base {
                    assert(fm.allocated().contains(a1.frames@[k2] as int));
                    assert(!pre_fm.allocated().contains(a1.frames@[k2] as int));
                    assert(pre_fm.allocated().contains(pre_self.pt.root_ppn as int));
                } else {
                    assert(post.areas@[i2].frames@[k2] == pre_self.areas@[i2].frames@[k2]);
                    assert(pre_fm.allocated().contains(
                        pre_self.areas@[i2].frames@[k2] as int,
                    ));
                }
            }
            assert forall|i2: int, k2: int, j2: int, l2: int|
                0 <= i2 < post.areas@.len() && 0 <= k2 < post.areas@[i2].frames@.len() && 0
                    <= j2 < post.areas@.len() && 0 <= l2 < post.areas@[j2].frames@.len() && (
            i2 != j2 || k2 != l2) implies #[trigger] post.areas@[i2].frames@[k2]
                != #[trigger] post.areas@[j2].frames@[l2] by {
                let ka_new = i2 == i && k2 >= base;
                let kb_new = j2 == i && l2 >= base;
                if ka_new && kb_new {
                    assert(a1.frames@[k2] != a1.frames@[l2]);
                } else if ka_new && !kb_new {
                    assert(post.areas@[j2].frames@[l2] == pre_self.areas@[j2].frames@[l2]);
                    assert(pre_fm.allocated().contains(
                        pre_self.areas@[j2].frames@[l2] as int,
                    ));
                    assert(!pre_fm.allocated().contains(a1.frames@[k2] as int));
                } else if !ka_new && kb_new {
                    assert(post.areas@[i2].frames@[k2] == pre_self.areas@[i2].frames@[k2]);
                    assert(pre_fm.allocated().contains(
                        pre_self.areas@[i2].frames@[k2] as int,
                    ));
                    assert(!pre_fm.allocated().contains(a1.frames@[l2] as int));
                } else {
                    assert(post.areas@[i2].frames@[k2] == pre_self.areas@[i2].frames@[k2]);
                    assert(post.areas@[j2].frames@[l2] == pre_self.areas@[j2].frames@[l2]);
                }
            }
            assert forall|p: int| post.owned().contains(p) implies pre_self.owned().contains(p)
                || (exists|u: int| e0 <= u < new_end_vpn && post.ppn_of(u) == p) by {
                if p != post.pt.root_ppn as int {
                    let (i2, k2) = choose|i2: int, k2: int|
                        0 <= i2 < post.areas@.len() && 0 <= k2 < post.areas@[i2].frames@.len()
                            && #[trigger] post.areas@[i2].frames@[k2] as int == p;
                    if i2 != i || k2 < a0.frames@.len() {
                        assert(pre_self.areas@[i2].frames@[k2] as int == p);
                        assert(pre_self.owned().contains(p));
                    } else {
                        assert(post.ppn_of(start0 + k2) == p);
                        assert(e0 <= start0 + k2 < new_end_vpn);
                    }
                }
            }
            assert forall|p: int|
                pre_self.owned().contains(p) || (exists|u: int|
                    e0 <= u < new_end_vpn && post.ppn_of(u) == p) implies post.owned().contains(
                p,
            ) by {
                if pre_self.owned().contains(p) {
                    if p != pre_self.pt.root_ppn as int {
                        let (i2, k2) = choose|i2: int, k2: int|
                            0 <= i2 < pre_self.areas@.len() && 0 <= k2
                                < pre_self.areas@[i2].frames@.len()
                                && #[trigger] pre_self.areas@[i2].frames@[k2] as int == p;
                        assert(post.areas@[i2].frames@[k2] as int == p);
                    }
                } else {
                    let u = choose|u: int| e0 <= u < new_end_vpn && post.ppn_of(u) == p;
                    assert(post.areas@[i].frames@[u - start0] as int == p);
                }
            }
            assert forall|p: int| #[trigger] fm.allocated().contains(p) implies
                pre_fm.allocated().contains(p) || post.owned().contains(p) by {
                if !pre_fm.allocated().contains(p) {
                    let k = choose|k: int|
                        a0.frames@.len() <= k < a1.frames@.len()
                            && #[trigger] a1.frames@[k] as int == p;
                    assert(post.areas@[i].frames@[k] as int == p);
                }
            }
        }
        true
    }

    /// Shrink the upper bound of the region that starts at `start_vpn` (the
    /// heap) to `new_end_vpn`, unmapping the dropped pages and returning
    /// their frames.  Succeeds exactly under `can_shrink`; on failure
    /// nothing changes.
    #[verifier::loop_isolation(false)]
    pub fn shrink_to(&mut self, fm: &mut FrameManager, start_vpn: usize, new_end_vpn: usize) -> (r:
        bool)
        requires
            old(self).wf_in(*old(fm)),
            old(fm).wf(),
        ensures
            final(fm).wf(),
            final(fm).cap == old(fm).cap,
            final(self).wf_in(*final(fm)),
            r == old(self).can_shrink(start_vpn as int, new_end_vpn as int),
            !r ==> {
                &&& *final(self) == *old(self)
                &&& *final(fm) == *old(fm)
            },
            r ==> {
                let i = first_start(old(self).areas@, start_vpn as int);
                let e0 = old(self).areas@[i].end_vpn as int;
                &&& final(self).pt.root_ppn == old(self).pt.root_ppn
                &&& final(self).regions() == old(self).regions().update(
                    i,
                    (start_vpn as int, new_end_vpn as int, old(self).areas@[i].perm),
                )
                &&& forall|v: int|
                    0 <= v < MAX_VPN && !(new_end_vpn <= v < e0) ==> final(self).pt.slots@[v]
                        == old(self).pt.slots@[v]
                &&& forall|v: int|
                    new_end_vpn <= v < e0 ==> {
                        &&& old(self).translated(v) is Some
                        &&& final(self).translated(v) is None
                    }
                &&& final(fm).mem@ == old(fm).mem@
                &&& forall|p: int|
                    #[trigger] final(fm).allocated().contains(p) <==> old(
                        fm,
                    ).allocated().contains(p) && !(exists|v: int|
                        new_end_vpn <= v < e0 && old(self).ppn_of(v) == p)
                &&& forall|p: int|
                    #[trigger] final(self).owned().contains(p) <==> old(self).owned().contains(
                        p,
                    ) && !(exists|v: int|
                        new_end_vpn <= v < e0 && old(self).ppn_of(v) == p)
                &&& final(fm).avail() == old(fm).avail() + (e0 - new_end_vpn)
            },
    {
        let ghost pre_self = *self;
        let ghost pre_fm = *fm;
        proof {
            lemma_first_start(pre_self.areas@, start_vpn as int);
        }
        let n = self.areas.len();
        let mut idx: usize = n;
        let mut j: usize = 0;
        while j < n
            invariant
                j <= n,
                idx == n || {
                    &&& idx < j
                    &&& self.areas@[idx as int].start_vpn == start_vpn
                    &&& forall|l: int|
                        0 <= l < idx ==> (#[trigger] self.areas@[l]).start_vpn != start_vpn
                },
                idx == n ==> forall|l: int|
                    0 <= l < j ==> (#[trigger] self.areas@[l]).start_vpn != start_vpn,
            decreases n - j,
        {
            if idx == n && self.areas[j].start_vpn == start_vpn {
                idx = j;
            }
            j += 1;
        }
        if idx == n {
            return false;
        }
        proof {
            assert(idx as int == first_start(pre_self.areas@, start_vpn as int));
        }
        let old_end = self.areas[idx].end_vpn;
        if !(start_vpn <= new_end_vpn && new_end_vpn <= old_end) {
            return false;
        }
        let mut area = self.areas.remove(idx);
        let ghost a0 = area;
        let start0 = area.start_vpn;
        let keep = new_end_vpn - start_vpn;
        let mut k: usize = keep;
        while k < area.frames.len()
            invariant
                keep <= k <= a0.frames@.len(),
                area == a0,
                a0.start_vpn == start_vpn,
                a0.end_vpn == old_end,
                a0.frames@.len() == old_end - start_vpn,
                old_end <= TRAMPOLINE_VPN,
                self.areas@ == pre_self.areas@.remove(idx as int),
                self.pt.root_ppn == pre_self.pt.root_ppn,
                self.pt.slots@.len() == MAX_VPN,
                forall|u: int|
                    0 <= u < MAX_VPN && !(new_end_vpn <= u < start_vpn + k) ==> self.pt.slots@[u]
                        == pre_self.pt.slots@[u],
                forall|u: int|
                    new_end_vpn <= u < start_vpn + k ==> (#[trigger] self.pt.slots@[u]) is None,
                fm.wf(),
                fm.cap == pre_fm.cap,
                fm.mem@ == pre_fm.mem@,
                fm.avail() == pre_fm.avail() + (k - keep),
                forall|p: int|
                    #[trigger] fm.allocated().contains(p) <==> pre_fm.allocated().contains(p)
                        && !(exists|l: int|
                        keep <= l < k && #[trigger] a0.frames@[l] as int == p),
                forall|l: int|
                    k <= l < a0.frames@.len() ==> fm.allocated().contains(
                        #[trigger] a0.frames@[l] as int,
                    ),
            decreases a0.frames@.len() - k,
        {
            let ghost fm_prev = *fm;
            let p = area.frames[k];
            self.pt.slots.set(start_vpn + k, None);
            fm.dealloc_frame(p);
            proof {
                assert forall|q: int| fm.allocated().contains(q) implies
                    pre_fm.allocated().contains(q) && !(exists|l: int|
                    keep <= l < k + 1 && #[trigger] a0.frames@[l] as int == q) by {
                    assert(fm_prev.allocated().contains(q));
                    if exists|l: int| keep <= l < k + 1 && #[trigger] a0.frames@[l] as int
                        == q {
                        let l = choose|l: int|
                            keep <= l < k + 1 && #[trigger] a0.frames@[l] as int == q;
                        if l < k {
                            assert(!fm_prev.allocated().contains(q));
                        } else {
                            assert(q == p as int);
                        }
                        assert(false);
                    }
                }
                assert forall|q: int|
                    pre_fm.allocated().contains(q) && !(exists|l: int|
                        keep <= l < k + 1 && #[trigger] a0.frames@[l] as int == q) implies
                    fm.allocated().contains(q) by {
                    assert(a0.frames@[k as int] as int != q);
                    assert(fm_prev.allocated().contains(q));
                }
                assert forall|l: int|
                    k + 1 <= l < a0.frames@.len() implies fm.allocated().contains(
                        #[trigger] a0.frames@[l] as int,
                    ) by {
                    assert(pre_self.areas@[idx as int].frames@[l] == a0.frames@[l]);
                    assert(pre_self.areas@[idx as int].frames@[k as int] == a0.frames@[
                        k as int]);
                    assert(a0.frames@[l] != a0.frames@[k as int]);
                }
            }
            k += 1;
        }
        area.frames.truncate(keep);
        area.end_vpn = new_end_vpn;
        let ghost a1 = area;
        self.areas.insert(idx, area);
        proof {
            let post = *self;
            let i = idx as int;
            let e0 = old_end as int;
            assert(post.areas@ =~= pre_self.areas@.update(i, a1));
            lemma_first_start_congruence(post.areas@, pre_self.areas@, start_vpn as int);
            assert forall|i2: int, u: int| 0 <= i2 < post.areas@.len() && #[trigger] post.in_area(
                i2,
                u,
            ) implies post.pt.slots@[u] == Some(
                PtEntry {
                    ppn: post.areas@[i2].frames@[u - post.areas@[i2].start_vpn],
                    flags: (post.areas@[i2].perm | PTE_V) as u8,
                },
            ) by {
                if i2 != i {
                    assert(pre_self.in_area(i2, u));
                    assert(!(new_end_vpn <= u < e0));
                } else {
                    assert(pre_self.in_area(i, u));
                    assert(!(new_end_vpn <= u < e0));
                    assert(a1.frames@[u - start0] == a0.frames@[u - start0]);
                }
            }
            assert forall|u: int|
                0 <= u < MAX_VPN && u != TRAMPOLINE_VPN && (forall|i2: int|
                    0 <= i2 < post.areas@.len() ==> !post.in_area(i2, u)) implies (
            #[trigger] post.pt.slots@[u]) is None by {
                if !(new_end_vpn <= u < e0) {
                    assert forall|i2: int|
                        0 <= i2 < pre_self.areas@.len() implies !pre_self.in_area(i2, u) by {
                        if i2 == i {
                            assert(!post.in_area(i, u));
                        } else {
                            assert(!post.in_area(i2, u));
                        }
                    }
                    assert(pre_self.pt.slots@[u] is None);
                    assert(post.pt.slots@[u] == pre_self.pt.slots@[u]);
                }
            }
            assert(post.regions() =~= pre_self.regions().update(
                i,
                (start_vpn as int, new_end_vpn as int, pre_self.areas@[i].perm),
            ));
            assert forall|u: int| new_end_vpn <= u < e0 implies (#[trigger] pre_self.translated(
                u,
            )) is Some by {
                assert(pre_self.in_area(i, u));
            }
            assert forall|u: int| new_end_vpn <= u < e0 implies pre_self.ppn_of(u)
                == a0.frames@[u - start0] as int by {
                assert(pre_self.in_area(i, u));
            }
            assert forall|p: int| #[trigger] fm.allocated().contains(p) <==> pre_fm.allocated().contains(
                p,
            ) && !(exists|v: int|
                new_end_vpn <= v < e0 && pre_self.ppn_of(v) == p) by {
                if exists|l: int| keep <= l < a0.frames@.len() && #[trigger] a0.frames@[l]
                    as int == p {
                    let l = choose|l: int|
                        keep <= l < a0.frames@.len() && #[trigger] a0.frames@[l] as int == p;
                    assert(pre_self.ppn_of(start0 + l) == p);
                    assert(new_end_vpn <= start0 + l < e0);
                }
                if exists|v: int| new_end_vpn <= v < e0 && pre_self.ppn_of(v) == p {
                    let v2 = choose|v: int| new_end_vpn <= v < e0 && pre_self.ppn_of(v) == p;
                    assert(a0.frames@[v2 - start0] as int == p);
                    assert(keep <= v2 - start0 < a0.frames@.len());
                }
            }
            assert forall|i2: int, k2: int|
                0 <= i2 < post.areas@.len() && 0 <= k2
                    < post.areas@[i2].frames@.len() implies fm.allocated().contains(
                #[trigger] post.areas@[i2].frames@[k2] as int,
            ) && post.areas@[i2].frames@[k2] != post.pt.root_ppn by {
                assert(post.areas@[i2].frames@[k2] == pre_self.areas@[i2].frames@[k2]);
                let p = post.areas@[i2].frames@[k2] as int;
                assert(pre_fm.allocated().contains(p));
                if exists|v: int| new_end_vpn <= v < e0 && pre_self.ppn_of(v) == p {
                    let v2 = choose|v: int| new_end_vpn <= v < e0 && pre_self.ppn_of(v) == p;
                    assert(pre_self.areas@[i].frames@[v2 - start0] as int == p);
                    assert(pre_self.areas@[i].frames@[v2 - start0]
                        == pre_self.areas@[i2].frames@[k2]);
                    assert(i2 == i && v2 - start0 == k2);
                    assert(false);
                }
            }
            assert(fm.allocated().contains(post.pt.root_ppn as int)) by {
                let p = post.pt.root_ppn as int;
                if exists|v: int| new_end_vpn <= v < e0 && pre_self.ppn_of(v) == p {
                    let v2 = choose|v: int| new_end_vpn <= v < e0 && pre_self.ppn_of(v) == p;
                    assert(pre_self.areas@[i].frames@[v2 - start0] as int == p);
                    assert(false);
                }
            }
            assert forall|p: int| #[trigger] post.owned().contains(p) <==> pre_self.owned().contains(
                p,
            ) && !(exists|v: int|
                new_end_vpn <= v < e0 && pre_self.ppn_of(v) == p) by {
                if post.owned().contains(p) {
                    if p != post.pt.root_ppn as int {
                        let (i2, k2) = choose|i2: int, k2: int|
                            0 <= i2 < post.areas@.len() && 0 <= k2
                                < post.areas@[i2].frames@.len()
                                && #[trigger] post.areas@[i2].frames@[k2] as int == p;
                        assert(pre_self.areas@[i2].frames@[k2] as int == p);
                        assert(pre_self.owned().contains(p));
                        if exists|v: int| new_end_vpn <= v < e0 && pre_self.ppn_of(v) == p {
                            let v2 = choose|v: int|
                                new_end_vpn <= v < e0 && pre_self.ppn_of(v) == p;
                            assert(pre_self.areas@[i].frames@[v2 - start0]
                                == pre_self.areas@[i2].frames@[k2]);
                            assert(false);
                        }
                    } else {
                        assert(pre_self.owned().contains(p));
                    }
                } else {
                    if pre_self.owned().contains(p) && !(exists|v: int|
                        new_end_vpn <= v < e0 && pre_self.ppn_of(v) == p) {
                        if p != pre_self.pt.root_ppn as int {
                            let (i2, k2) = choose|i2: int, k2: int|
                                0 <= i2 < pre_self.areas@.len() && 0 <= k2
                                    < pre_self.areas@[i2].frames@.len()
                                    && #[trigger] pre_self.areas@[i2].frames@[k2] as int == p;
                            if i2 == i && k2 >= keep {
                                assert(pre_self.ppn_of(start0 + k2) == p);
                                assert(new_end_vpn <= start0 + k2 < e0);
                                assert(false);
                            } else {
                                assert(post.areas@[i2].frames@[k2] as int == p);
                                assert(post.owned().contains(p));
                            }
                        }
                        assert(false);
                    }
                }
            }
        }
        true
    }

    /// Register an empty region at `start_vpn` (the heap begins with no
    /// pages).  Fails, changing nothing, when `start_vpn` lies strictly
    /// inside an existing region or beyond the trampoline.
    #[verifier::loop_isolation(false)]
    pub fn push_empty_area(&mut self, start_vpn: usize, perm: u8) -> (r: bool)
        requires
            old(self).wf(),
        ensures
            !r ==> *final(self) == *old(self),
            r ==> {
                &&& final(self).pt == old(self).pt
                &&& final(self).regions() == old(self).regions().push(
                    (start_vpn as int, start_vpn as int, perm),
                )
                &&& final(self).wf()
                &&& final(self).areas@.len() == old(self).areas@.len() + 1
                &&& forall|i: int|
                    0 <= i < old(self).areas@.len() ==> final(self).areas@[i] == old(
                        self,
                    ).areas@[i]
                &&& final(self).areas@[old(self).areas@.len() as int].frames@.len() == 0
                &&& forall|p: int|
                    final(self).owned().contains(p) <==> old(self).owned().contains(p)
            },
            r == (start_vpn <= TRAMPOLINE_VPN && forall|i: int|
                0 <= i < old(self).areas@.len() ==> start_vpn <= (
                #[trigger] old(self).areas@[i]).start_vpn || old(self).areas@[i].end_vpn
                    <= start_vpn),
    {
        let ghost pre_self = *self;
        if !(start_vpn <= TRAMPOLINE_VPN) {
            return false;
        }
        let n = self.areas.len();
        let mut t: usize = 0;
        while t < n
            invariant
                t <= n,
                *self == pre_self,
                forall|l: int|
                    0 <= l < t ==> start_vpn <= (#[trigger] self.areas@[l]).start_vpn
                        || self.areas@[l].end_vpn <= start_vpn,
            decreases n - t,
        {
            let b = &self.areas[t];
            if !(start_vpn <= b.start_vpn || b.end_vpn <= start_vpn) {
                return false;
            }
            t += 1;
        }
        self.areas.push(
            MapArea { start_vpn, end_vpn: start_vpn, perm, frames: Vec::new() },
        );
        proof {
            let post = *self;
            let n2 = pre_self.areas@.len() as int;
            assert forall|i2: int, u: int| 0 <= i2 < post.areas@.len() && #[trigger] post.in_area(
                i2,
                u,
            ) implies post.pt.slots@[u] == Some(
                PtEntry {
                    ppn: post.areas@[i2].frames@[u - post.areas@[i2].start_vpn],
                    flags: (post.areas@[i2].perm | PTE_V) as u8,
                },
            ) by {
                assert(i2 < n2);
                assert(pre_self.in_area(i2, u));
            }
            assert forall|u: int|
                0 <= u < MAX_VPN && u != TRAMPOLINE_VPN && (forall|i2: int|
                    0 <= i2 < post.areas@.len() ==> !post.in_area(i2, u)) implies (
            #[trigger] post.pt.slots@[u]) is None by {
                assert forall|i2: int| 0 <= i2 < pre_self.areas@.len() implies !pre_self.in_area(
                    i2,
                    u,
                ) by {
                    assert(!post.in_area(i2, u));
                }
                assert(pre_self.pt.slots@[u] is None);
            }
            assert(post.regions() =~= pre_self.regions().push(
                (start_vpn as int, start_vpn as int, perm),
            ));
            assert forall|p: int| post.owned().contains(p) <==> pre_self.owned().contains(
                p,
            ) by {
                if post.owned().contains(p) && p != post.pt.root_ppn as int {
                    let (i2, k2) = choose|i2: int, k2: int|
                        0 <= i2 < post.areas@.len() && 0 <= k2 < post.areas@[i2].frames@.len()
                            && #[trigger] post.areas@[i2].frames@[k2] as int == p;
                    assert(i2 < n2);
                    assert(pre_self.areas@[i2].frames@[k2] as int == p);
                }
                if pre_self.owned().contains(p) && p != pre_self.pt.root_ppn as int {
                    let (i2, k2) = choose|i2: int, k2: int|
                        0 <= i2 < pre_self.areas@.len() && 0 <= k2
                            < pre_self.areas@[i2].frames@.len()
                            && #[trigger] pre_self.areas@[i2].frames@[k2] as int == p;
                    assert(post.areas@[i2].frames@[k2] as int == p);
                }
            }
        }
        true
    }

    /// Release every region and the root frame: the space's frames all go
    /// back to the allocator, everyone else's stay allocated and keep
    /// their contents.
    #[verifier::loop_isolation(false)]
    pub fn release(&mut self, fm: &mut FrameManager)
        requires
            old(self).wf_in(*old(fm)),
            old(fm).wf(),
        ensures
            final(fm).wf(),
            final(fm).cap == old(fm).cap,
            final(fm).mem@ == old(fm).mem@,
            forall|p: int|
                #[trigger] final(fm).allocated().contains(p) <==> old(fm).allocated().contains(
                    p,
                ) && !old(self).owned().contains(p),
            final(self).areas@.len() == 0,
    {
        let ghost pre_self = *self;
        let ghost pre_fm = *fm;
        proof {
            assert(pre_self.owned().contains(pre_self.pt.root_ppn as int));
        }
        while self.areas.len() > 0
            invariant
                self.wf_in(*fm),
                fm.wf(),
                fm.cap == pre_fm.cap,
                fm.mem@ == pre_fm.mem@,
                self.pt.root_ppn == pre_self.pt.root_ppn,
                forall|p: int|
                    #[trigger] self.owned().contains(p) ==> pre_self.owned().contains(p),
                forall|p: int|
                    #[trigger] fm.allocated().contains(p) <==> pre_fm.allocated().contains(p)
                        && (!pre_self.owned().contains(p) || self.owned().contains(p)),
            decreases self.areas@.len(),
        {
            let ghost mid_self = *self;
            let ghost mid_fm = *fm;
            let last = self.areas.len() - 1;
            let s = self.areas[last].start_vpn;
            let e = self.areas[last].end_vpn;
            let ghost iw = last as int;
            proof {
                assert(mid_self.has_region(s as int, e as int)) by {
                    assert(mid_self.areas@[iw].start_vpn == s);
                }
            }
            let ok = self.remove_region(fm, s, e);
            proof {
                assert(self.regions().len() < mid_self.regions().len()) by {
                    let i0 = choose|i0: int|
                        {
                            &&& 0 <= i0 < mid_self.areas@.len()
                            &&& (#[trigger] mid_self.areas@[i0]).start_vpn == s
                            &&& mid_self.areas@[i0].end_vpn == e
                            &&& self.regions() == mid_self.regions().remove(i0)
                        };
                }
                assert forall|p: int| #[trigger] fm.allocated().contains(p) <==>
                    pre_fm.allocated().contains(p) && (!pre_self.owned().contains(p)
                        || self.owned().contains(p)) by {
                    if fm.allocated().contains(p) {
                        assert(mid_fm.allocated().contains(p));
                        if pre_self.owned().contains(p) {
                            assert(mid_self.owned().contains(p));
                            assert(self.owned().contains(p));
                        }
                    } else {
                        if pre_fm.allocated().contains(p) && (!pre_self.owned().contains(p)
                            || self.owned().contains(p)) {
                            if mid_fm.allocated().contains(p) {
                                assert(exists|v: int|
                                    s <= v < e && mid_self.ppn_of(v) == p);
                                assert(!self.owned().contains(p));
                                assert(mid_self.owned().contains(p));
                                assert(false);
                            }
                        }
                    }
                }
            }
        }
        let ghost end_self = *self;
        let ghost end_fm = *fm;
        let root = self.pt.root_ppn;
        fm.dealloc_frame(root);
        proof {
            assert forall|p: int| #[trigger] fm.allocated().contains(p) <==>
                pre_fm.allocated().contains(p) && !pre_self.owned().contains(p) by {
                if p == root as int {
                    assert(pre_self.owned().contains(p));
                    assert(!fm.allocated().contains(p));
                } else {
                    if end_self.owned().contains(p) {
                        let (i2, k2) = choose|i2: int, k2: int|
                            0 <= i2 < end_self.areas@.len() && 0 <= k2
                                < end_self.areas@[i2].frames@.len()
                                && #[trigger] end_self.areas@[i2].frames@[k2] as int == p;
                        assert(false);
                    }
                }
            }
        }
    }

    /// An empty address space holding only the trampoline mapping; fails
    /// exactly when no frame is left for the root.
    pub fn new_bare(fm: &mut FrameManager) -> (r: Option<MemorySet>)
        requires
            old(fm).wf(),
        ensures
            final(fm).wf(),
            final(fm).cap == old(fm).cap,
            r is None ==> {
                &&& old(fm).avail() == 0
                &&& final(fm).free@ == old(fm).free@
                &&& final(fm).mem@ == old(fm).mem@
                &&& final(fm).allocated() == old(fm).allocated()
            },
            r is Some ==> {
                &&& old(fm).avail() > 0
                &&& r.unwrap().wf_in(*final(fm))
                &&& r.unwrap().areas@.len() == 0
                &&& forall|v: int|
                    0 <= v < MAX_VPN && v != TRAMPOLINE_VPN ==> r.unwrap().translated(v)
                        is None
                &&& !old(fm).allocated().contains(r.unwrap().pt.root_ppn as int)
                &&& final(fm).allocated() == old(fm).allocated().insert(
                    r.unwrap().pt.root_ppn as int,
                )
                &&& final(fm).avail() == old(fm).avail() - 1
                &&& forall|q: int|
                    old(fm).allocated().contains(q) ==> final(fm).frame(q) == old(fm).frame(
                        q,
                    )
                &&& final(fm).mem@.len() >= old(fm).mem@.len()
            },
    {
        let root = match fm.alloc_frame() {
            Some(p) => p,
            None => {
                return None;
            },
        };
        let mut slots: Vec<Option<PtEntry>> = Vec::new();
        let mut v: usize = 0;
        while v < MAX_VPN
            invariant
                v <= MAX_VPN,
                slots@.len() == v,
                forall|k: int| 0 <= k < v ==> slots@[k] is None,
            decreases MAX_VPN - v,
        {
            slots.push(None);
            v += 1;
        }
        slots.set(
            TRAMPOLINE_VPN,
            Some(PtEntry { ppn: TRAMPOLINE_PPN, flags: PTE_V | PTE_R | PTE_X }),
        );
        Some(MemorySet { pt: PageTable { root_ppn: root, slots }, areas: Vec::new() })
    }

    /// Duplicate `other` region by region with fresh frames and
    /// byte-identical contents (copy-on-fork).  Fails, releasing whatever
    /// was built, when the machine runs out of frames.
    #[verifier::loop_isolation(false)]
    pub fn clone_from(fm: &mut FrameManager, other: &MemorySet) -> (r: Option<MemorySet>)
        requires
            other.wf_in(*old(fm)),
            old(fm).wf(),
        ensures
            final(fm).wf(),
            final(fm).cap == old(fm).cap,
            final(fm).mem@.len() >= old(fm).mem@.len(),
            forall|q: int|
                old(fm).allocated().contains(q) ==> final(fm).frame(q) == old(fm).frame(q),
            r is None ==> forall|p: int|
                #[trigger] final(fm).allocated().contains(p) <==> old(fm).allocated().contains(
                    p,
                ),
            old(fm).avail() >= 1 + other.pages() ==> r is Some,
            r is Some ==> {
                let ms = r.unwrap();
                &&& ms.wf_in(*final(fm))
                &&& ms.regions() == other.regions()
                &&& forall|p: int|
                    old(fm).allocated().contains(p) ==> final(fm).allocated().contains(p)
                &&& forall|v: int|
                    0 <= v < MAX_VPN ==> ((#[trigger] ms.translated(v)) is Some
                        <==> other.translated(v) is Some)
                &&& forall|v: int|
                    0 <= v < MAX_VPN && (#[trigger] other.translated(v)) is Some
                        ==> ms.translated(v).unwrap().flags == other.translated(
                        v,
                    ).unwrap().flags
                &&& forall|v: int|
                    0 <= v < MAX_VPN && v != TRAMPOLINE_VPN && (#[trigger] other.translated(
                        v,
                    )) is Some ==> final(fm).frame(ms.ppn_of(v)) == old(fm).frame(
                        other.ppn_of(v),
                    )
                &&& forall|p: int|
                    #[trigger] ms.owned().contains(p) ==> !old(fm).allocated().contains(p)
                &&& forall|p: int|
                    #[trigger] final(fm).allocated().contains(p) ==> old(
                        fm,
                    ).allocated().contains(p) || ms.owned().contains(p)
            },
    {
        let ghost pre_fm = *fm;
        let mut ms = match MemorySet::new_bare(fm) {
            Some(m) => m,
            None => {
                proof {
                    if pre_fm.avail() >= 1 + other.pages() {
                        lemma_total_pages_mono(other.areas@, 0, other.areas@.len() as int);
                        assert(false);
                    }
                }
                return None;
            },
        };
        let n = other.areas.len();
        let mut i: usize = 0;
        while i < n
            invariant
                other.wf_in(pre_fm),
                pre_fm.wf(),
                i <= n,
                n == other.areas@.len(),
                ms.wf_in(*fm),
                fm.wf(),
                fm.cap == pre_fm.cap,
                fm.mem@.len() >= pre_fm.mem@.len(),
                fm.avail() == pre_fm.avail() - 1 - total_pages(other.areas@, i as int),
                ms.regions() =~= other.regions().subrange(0, i as int),
                forall|p: int|
                    pre_fm.allocated().contains(p) ==> #[trigger] fm.allocated().contains(p),
                forall|q: int|
                    pre_fm.allocated().contains(q) ==> fm.frame(q) == pre_fm.frame(q),
                forall|p: int|
                    #[trigger] ms.owned().contains(p) ==> !pre_fm.allocated().contains(p),
                forall|p: int|
                    #[trigger] fm.allocated().contains(p) ==> pre_fm.allocated().contains(p)
                        || ms.owned().contains(p),
                forall|v: int|
                    0 <= v < MAX_VPN && v != TRAMPOLINE_VPN ==> ((#[trigger] ms.translated(
                        v,
                    )) is Some <==> exists|j: int| 0 <= j < i && other.in_area(j, v)),
                forall|v: int|
                    0 <= v < MAX_VPN && v != TRAMPOLINE_VPN && (#[trigger] ms.translated(v))
                        is Some ==> {
                        &&& other.translated(v) is Some
                        &&& ms.translated(v).unwrap().flags == other.translated(
                            v,
                        ).unwrap().flags
                        &&& fm.frame(ms.ppn_of(v)) == pre_fm.frame(other.ppn_of(v))
                    },
            decreases n - i,
        {
            let ghost loop_ms = ms;
            let ghost loop_fm = *fm;
            let s = other.areas[i].start_vpn;
            let e = other.areas[i].end_vpn;
            let perm = other.areas[i].perm;
            if s == e {
                proof {
                    assert forall|l: int|
                        0 <= l < ms.areas@.len() implies s <= (
                    #[trigger] ms.areas@[l]).start_vpn || ms.areas@[l].end_vpn <= s by {
                        assert(ms.regions()[l] == other.regions()[l]);
                        assert(ms.areas@[l].start_vpn as int == other.regions()[l].0);
                        assert(ms.areas@[l].end_vpn as int == other.regions()[l].1);
                        assert((#[trigger] other.areas@[l]).end_vpn
                            <= other.areas@[i as int].start_vpn || other.areas@[i as int].end_vpn
                            <= other.areas@[l].start_vpn);
                    }
                }
                let ok = ms.push_empty_area(s, perm);
                if !ok {
                    proof {
                        assert(false);
                    }
                    ms.release(fm);
                    return None;
                }
            } else {
                proof {
                    if pre_fm.avail() >= 1 + other.pages() {
                        assert forall|l: int|
                            0 <= l < ms.areas@.len() implies e <= (
                        #[trigger] ms.areas@[l]).start_vpn || ms.areas@[l].end_vpn <= s by {
                            assert(ms.regions()[l] == other.regions()[l]);
                            assert(ms.areas@[l].start_vpn as int == other.regions()[l].0);
                            assert(ms.areas@[l].end_vpn as int == other.regions()[l].1);
                            assert((#[trigger] other.areas@[l]).end_vpn
                                <= other.areas@[i as int].start_vpn
                                || other.areas@[i as int].end_vpn
                                <= other.areas@[l].start_vpn);
                        }
                        lemma_total_pages_mono(other.areas@, i + 1, other.areas@.len() as int);
                        assert(total_pages(other.areas@, i + 1) == total_pages(
                            other.areas@,
                            i as int,
                        ) + (e - s));
                        assert(fm.avail() >= e - s);
                        assert(ms.can_insert(*fm, s as int, e as int));
                    }
                }
                let ok = ms.insert_framed_area(fm, s, e, perm);
                if !ok {
                    proof {
                        if pre_fm.avail() >= 1 + other.pages() {
                            assert(false);
                        }
                    }
                    ms.release(fm);
                    return None;
                }
                let ghost ins_ms = ms;
                let ghost ins_fm = *fm;
                let mut v: usize = s;
                while v < e
                    invariant
                        other.wf_in(pre_fm),
                        pre_fm.wf(),
                        0 <= i < n,
                        n == other.areas@.len(),
                        other.areas@[i as int].start_vpn == s,
                        other.areas@[i as int].end_vpn == e,
                        s <= v <= e,
                        ms == ins_ms,
                        ms.wf_in(*fm),
                        fm.wf(),
                        fm.cap == ins_fm.cap,
                        fm.mem@.len() == ins_fm.mem@.len(),
                        fm.free@ == ins_fm.free@,
                        forall|p: int|
                            #[trigger] fm.allocated().contains(p) <==> ins_fm.allocated().contains(
                                p,
                            ),
                        forall|q: int|
                            0 <= q < fm.mem@.len() && !(exists|u: int|
                                s <= u < v && ms.ppn_of(u) == q) ==> fm.frame(q)
                                == ins_fm.frame(q),
                        forall|u: int|
                            s <= u < v ==> fm.frame(#[trigger] ms.ppn_of(u)) == pre_fm.frame(
                                other.ppn_of(u),
                            ),
                    decreases e - v,
                {
                    let ghost it_fm = *fm;
                    let src = other.areas[i].frames[v - s];
                    let dst = ms.translate(v).unwrap().ppn;
                    proof {
                        assert(other.in_area(i as int, v as int));
                        assert(other.ppn_of(v as int) == src as int);
                        assert(pre_fm.allocated().contains(src as int));
                        let last0 = ms.areas@.len() - 1;
                        assert(ms.regions().len() == ms.areas@.len());
                        assert(ms.regions()[last0] == (s as int, e as int, perm));
                        assert(ms.areas@[last0].start_vpn == s && ms.areas@[last0].end_vpn
                            == e);
                        assert(ins_ms.in_area(ins_ms.areas@.len() - 1, v as int));
                        assert(ms.owned().contains(dst as int)) by {
                            let last = ms.areas@.len() - 1;
                            assert(ms.areas@[last].frames@[v - s] as int == dst as int);
                        }
                        assert(!pre_fm.allocated().contains(dst as int));
                        assert(fm.allocated().contains(dst as int));
                    }
                    fm.clone_frame(src, dst);
                    proof {
                        assert forall|u: int| s <= u < v + 1 implies fm.frame(
                            #[trigger] ms.ppn_of(u),
                        ) == pre_fm.frame(other.ppn_of(u)) by {
                            if u < v {
                                assert(ms.in_area(ms.areas@.len() - 1, u));
                                assert(ms.in_area(ms.areas@.len() - 1, v as int));
                                assert(ms.areas@[ms.areas@.len() - 1].frames@[u - s]
                                    != ms.areas@[ms.areas@.len() - 1].frames@[v - s]);
                                assert(ms.ppn_of(u) != dst as int);
                            } else {
                                assert(fm.frame(dst as int) == it_fm.frame(src as int));
                                assert(it_fm.frame(src as int) == pre_fm.frame(src as int));
                            }
                        }
                        assert forall|q: int|
                            0 <= q < fm.mem@.len() && !(exists|u: int|
                                s <= u < v + 1 && ms.ppn_of(u) == q) implies fm.frame(q)
                            == ins_fm.frame(q) by {
                            assert(ms.ppn_of(v as int) == dst as int);
                            assert(q != dst as int);
                        }
                        FrameManager::lemma_allocated_congruence(*fm, it_fm);
                    }
                    v += 1;
                }
            }
            proof {
                assert(ms.regions() =~= other.regions().subrange(0, i + 1));
                assert forall|v2: int|
                    0 <= v2 < MAX_VPN && v2 != TRAMPOLINE_VPN implies ((
                #[trigger] ms.translated(v2)) is Some <==> exists|j: int|
                    0 <= j < i + 1 && other.in_area(j, v2)) by {
                    if ms.translated(v2) is Some {
                        if loop_ms.translated(v2) is Some {
                            let j = choose|j: int| 0 <= j < i && other.in_area(j, v2);
                            assert(other.in_area(j, v2));
                        } else {
                            assert(s <= v2 < e);
                            assert(other.in_area(i as int, v2));
                        }
                    } else {
                        if exists|j: int| 0 <= j < i + 1 && other.in_area(j, v2) {
                            let j = choose|j: int| 0 <= j < i + 1 && other.in_area(j, v2);
                            if j < i {
                                assert(loop_ms.translated(v2) is Some);
                                assert(ms.translated(v2) == loop_ms.translated(v2));
                            } else {
                                assert(s <= v2 < e);
                            }
                            assert(false);
                        }
                    }
                }
                assert forall|v2: int|
                    0 <= v2 < MAX_VPN && v2 != TRAMPOLINE_VPN && (#[trigger] ms.translated(
                        v2,
                    )) is Some implies {
                    &&& other.translated(v2) is Some
                    &&& ms.translated(v2).unwrap().flags == other.translated(
                        v2,
                    ).unwrap().flags
                    &&& fm.frame(ms.ppn_of(v2)) == pre_fm.frame(other.ppn_of(v2))
                } by {
                    if loop_ms.translated(v2) is Some {
                        assert(ms.translated(v2) == loop_ms.translated(v2));
                        assert(!(s <= v2 < e)) by {
                            let j = choose|j: int| 0 <= j < i && other.in_area(j, v2);
                            assert(other.in_area(j, v2));
                            if s <= v2 < e {
                                assert(other.in_area(i as int, v2));
                            }
                        }
                        assert(loop_ms.owned().contains(loop_ms.ppn_of(v2))) by {
                            if !(exists|j2: int|
                                0 <= j2 < loop_ms.areas@.len() && #[trigger] loop_ms.in_area(
                                    j2,
                                    v2,
                                )) {
                                assert forall|j2: int|
                                    0 <= j2 < loop_ms.areas@.len() implies !loop_ms.in_area(
                                    j2,
                                    v2,
                                ) by {}
                                assert(loop_ms.pt.slots@[v2] is None);
                                assert(false);
                            }
                            let j2 = choose|j2: int|
                                0 <= j2 < loop_ms.areas@.len() && #[trigger] loop_ms.in_area(
                                    j2,
                                    v2,
                                );
                            assert(loop_ms.areas@[j2].frames@[v2 - loop_ms.areas@[j2].start_vpn]
                                as int == loop_ms.ppn_of(v2));
                        }
                    } else {
                        assert(s <= v2 < e);
                        assert(other.in_area(i as int, v2));
                        assert(other.translated(v2) is Some);
                    }
                }
            }
            i += 1;
        }
        proof {
            assert(ms.regions() =~= other.regions());
            assert forall|v2: int| 0 <= v2 < MAX_VPN implies ((#[trigger] ms.translated(v2))
                is Some <==> other.translated(v2) is Some) by {
                if v2 != TRAMPOLINE_VPN {
                    if other.translated(v2) is Some {
                        if !(exists|j: int| 0 <= j < n && other.in_area(j, v2)) {
                            assert forall|j: int|
                                0 <= j < other.areas@.len() implies !other.in_area(j, v2) by {}
                            assert(other.pt.slots@[v2] is None);
                            assert(false);
                        }
                    }
                    if ms.translated(v2) is Some {
                        assert(other.translated(v2) is Some);
                    }
                }
            }
        }
        Some(ms)
    }

    /// Build an address space from a program image: the segments at their
    /// link-specified pages, a guard page, the user stack, an empty heap
    /// region at the stack top, and the trap-context page.  Returns the
    /// space, the user stack top, and the entry point.  Fails, releasing
    /// whatever was built, on a malformed image or an exhausted machine.
    #[verifier::loop_isolation(false)]
    #[verifier::rlimit(100)]
    pub fn from_image(fm: &mut FrameManager, img: &ProgramImage) -> (r: Option<
        (MemorySet, usize, usize),
    >)
        requires
            old(fm).wf(),
        ensures
            final(fm).wf(),
            final(fm).cap == old(fm).cap,
            final(fm).mem@.len() >= old(fm).mem@.len(),
            forall|q: int|
                old(fm).allocated().contains(q) ==> final(fm).frame(q) == old(fm).frame(q),
            r is None ==> forall|p: int|
                #[trigger] final(fm).allocated().contains(p) <==> old(fm).allocated().contains(
                    p,
                ),
            image_ok(*img) && old(fm).avail() >= image_frames(*img) ==> r is Some,
            r is Some ==> {
                let ms = r.unwrap().0;
                let usp = r.unwrap().1;
                let hv = usp as int / PAGE_SIZE as int;
                &&& ms.wf_in(*final(fm))
                &&& r.unwrap().2 == img.entry
                &&& usp as int % PAGE_SIZE as int == 0
                &&& 0 < hv <= TRAP_CONTEXT_VPN
                &&& first_start(ms.areas@, hv) < ms.areas@.len()
                &&& ms.regions()[first_start(ms.areas@, hv)] == (
                    hv,
                    hv,
                    (PTE_U | PTE_R | PTE_W) as u8,
                )
                &&& ms.translated(TRAP_CONTEXT_VPN as int) is Some
                &&& ms.regions().len() == img.segments@.len() + 3
                &&& (forall|a: int|
                    0 <= a < img.segments@.len() ==> #[trigger] ms.regions()[a] == (
                        img.segments@[a].start_vpn as int,
                        img.segments@[a].start_vpn + img.segments@[a].pages,
                        img.segments@[a].perm,
                    ))
                &&& ms.regions()[img.segments@.len() as int] == (
                    segs_max_end(img.segments@, img.segments@.len() as int) + 1,
                    hv,
                    (PTE_U | PTE_R | PTE_W) as u8,
                )
                &&& ms.regions()[img.segments@.len() as int + 1] == (
                    hv,
                    hv,
                    (PTE_U | PTE_R | PTE_W) as u8,
                )
                &&& ms.regions()[img.segments@.len() as int + 2] == (
                    TRAP_CONTEXT_VPN as int,
                    TRAP_CONTEXT_VPN as int + 1,
                    (PTE_R | PTE_W) as u8,
                )
                &&& usp == (segs_max_end(img.segments@, img.segments@.len() as int) + 1
                    + USER_STACK_PAGES) * PAGE_SIZE
                &&& image_loaded(ms, *final(fm), *img)
                &&& forall|p: int|
                    old(fm).allocated().contains(p) ==> final(fm).allocated().contains(p)
                &&& forall|p: int|
                    #[trigger] ms.owned().contains(p) ==> !old(fm).allocated().contains(p)
                &&& forall|p: int|
                    #[trigger] final(fm).allocated().contains(p) ==> old(
                        fm,
                    ).allocated().contains(p) || ms.owned().contains(p)
            },
    {
        let ghost pre_fm = *fm;
        let ghost placeable = image_ok(*img) && old(fm).avail() >= image_frames(*img);
        let mut ms = match MemorySet::new_bare(fm) {
            Some(m) => m,
            None => {
                proof {
                    if placeable {
                        lemma_segs_pages_mono(img.segments@, 0, img.segments@.len() as int);
                        assert(false);
                    }
                }
                return None;
            },
        };
        let mut max_end: usize = 1;
        let nseg = img.segments.len();
        let mut i: usize = 0;
        while i < nseg
            invariant
                pre_fm.wf(),
                i <= nseg,
                nseg == img.segments@.len(),
                ms.wf_in(*fm),
                fm.wf(),
                fm.cap == pre_fm.cap,
                fm.mem@.len() >= pre_fm.mem@.len(),
                1 <= max_end <= TRAMPOLINE_VPN,
                forall|p: int|
                    pre_fm.allocated().contains(p) ==> #[trigger] fm.allocated().contains(p),
                forall|q: int|
                    pre_fm.allocated().contains(q) ==> fm.frame(q) == pre_fm.frame(q),
                forall|p: int|
                    #[trigger] ms.owned().contains(p) ==> !pre_fm.allocated().contains(p),
                forall|p: int|
                    #[trigger] fm.allocated().contains(p) ==> pre_fm.allocated().contains(p)
                        || ms.owned().contains(p),
                forall|a: int|
                    0 <= a < ms.areas@.len() ==> {
                        &&& (#[trigger] ms.areas@[a]).start_vpn < ms.areas@[a].end_vpn
                        &&& ms.areas@[a].end_vpn <= max_end
                    },
                ms.areas@.len() == i,
                forall|a: int|
                    0 <= a < i ==> #[trigger] ms.regions()[a] == (
                        img.segments@[a].start_vpn as int,
                        img.segments@[a].start_vpn + img.segments@[a].pages,
                        img.segments@[a].perm,
                    ),
                max_end as int == segs_max_end(img.segments@, i as int),
                fm.avail() == pre_fm.avail() - 1 - segs_pages(img.segments@, i as int),
                forall|a2: int, adr: int|
                    #![trigger img.segments@[a2], ms.byte_at(*fm, adr)]
                    0 <= a2 < i && img.segments@[a2].start_vpn * PAGE_SIZE <= adr
                        < img.segments@[a2].start_vpn * PAGE_SIZE + img.segments@[a2].pages
                        * PAGE_SIZE ==> ms.byte_at(*fm, adr) == (if adr
                        - img.segments@[a2].start_vpn * PAGE_SIZE
                        < img.segments@[a2].data@.len() {
                        img.segments@[a2].data@[adr - img.segments@[a2].start_vpn
                            * PAGE_SIZE]
                    } else {
                        0u8
                    }),
            decreases nseg - i,
        {
            let ghost iter_ms = ms;
            let ghost iter_fm = *fm;
            let seg = &img.segments[i];
            if seg.start_vpn > MAX_VPN || seg.pages > MAX_VPN {
                proof {
                    if placeable {
                        assert(img.segments@[i as int].start_vpn
                            + img.segments@[i as int].pages <= TRAMPOLINE_VPN);
                        assert(false);
                    }
                }
                ms.release(fm);
                return None;
            }
            let e = seg.start_vpn + seg.pages;
            proof {
                if placeable {
                    assert forall|a: int|
                        0 <= a < ms.areas@.len() implies e <= (
                    #[trigger] ms.areas@[a]).start_vpn || ms.areas@[a].end_vpn
                        <= seg.start_vpn by {
                        assert(ms.regions()[a] == (
                            img.segments@[a].start_vpn as int,
                            img.segments@[a].start_vpn + img.segments@[a].pages,
                            img.segments@[a].perm,
                        ));
                        assert(ms.regions()[a].0 == ms.areas@[a].start_vpn as int);
                        assert(ms.regions()[a].1 == ms.areas@[a].end_vpn as int);
                        assert((#[trigger] img.segments@[a]).start_vpn
                            + img.segments@[a].pages <= img.segments@[i as int].start_vpn
                            || img.segments@[i as int].start_vpn
                                + img.segments@[i as int].pages
                            <= img.segments@[a].start_vpn);
                    }
                    lemma_segs_pages_mono(img.segments@, i + 1, img.segments@.len() as int);
                    assert(segs_pages(img.segments@, i + 1) == segs_pages(
                        img.segments@,
                        i as int,
                    ) + img.segments@[i as int].pages);
                    assert(fm.avail() >= e - seg.start_vpn);
                    assert(ms.can_insert(*fm, seg.start_vpn as int, e as int));
                }
            }
            let ok = ms.insert_framed_area(fm, seg.start_vpn, e, seg.perm);
            if !ok {
                proof {
                    if placeable {
                        assert(false);
                    }
                }
                ms.release(fm);
                return None;
            }
            if seg.data.len() > seg.pages * PAGE_SIZE {
                proof {
                    if placeable {
                        assert(img.segments@[i as int].data@.len()
                            <= img.segments@[i as int].pages * PAGE_SIZE);
                        assert(false);
                    }
                }
                ms.release(fm);
                return None;
            }
            let ghost ins_ms = ms;
            let ghost ins_fm = *fm;
            let ghost last0 = ms.areas@.len() - 1;
            let ghost base = seg.start_vpn * PAGE_SIZE as int;
            proof {
                assert(ms.regions().len() == ms.areas@.len());
                assert(ms.regions()[last0] == (seg.start_vpn as int, e as int, seg.perm));
                assert(ms.areas@[last0].start_vpn == seg.start_vpn && ms.areas@[last0].end_vpn
                    == e);
                assert forall|a: int|
                    base <= a < base + seg.pages * PAGE_SIZE implies #[trigger] ms.byte_at(
                    *fm,
                    a,
                ) == 0u8 by {
                    let o = a - base;
                    lemma_page_split(seg.start_vpn as int, o);
                    let vo = a / PAGE_SIZE as int;
                    assert(ms.in_area(last0, vo));
                    assert(fm.frame(ms.ppn_of(vo)) == crate::frame::zero_page());
                }
            }
            let mut j: usize = 0;
            while j < seg.data.len()
                invariant
                    0 <= i < nseg,
                    nseg == img.segments@.len(),
                    seg == &img.segments[i as int],
                    j <= seg.data@.len(),
                    seg.data@.len() <= seg.pages * PAGE_SIZE,
                    seg.start_vpn + seg.pages == e,
                    e <= TRAMPOLINE_VPN,
                    ms == ins_ms,
                    last0 == ms.areas@.len() - 1,
                    base == seg.start_vpn * PAGE_SIZE as int,
                    ms.wf_in(*fm),
                    fm.wf(),
                    fm.cap == ins_fm.cap,
                    fm.mem@.len() == ins_fm.mem@.len(),
                    fm.free@ == ins_fm.free@,
                    forall|p: int|
                        #[trigger] fm.allocated().contains(p) <==> ins_fm.allocated().contains(
                            p,
                        ),
                    forall|q: int|
                        0 <= q < fm.mem@.len() && !(exists|kk: int|
                            0 <= kk < ms.areas@[last0].frames@.len()
                                && #[trigger] ms.areas@[last0].frames@[kk] as int == q)
                            ==> fm.frame(q) == ins_fm.frame(q),
                    forall|a: int|
                        base <= a < base + seg.pages * PAGE_SIZE ==> #[trigger] ms.byte_at(
                            *fm,
                            a,
                        ) == (if a - base < j {
                            seg.data@[a - base]
                        } else {
                            0u8
                        }),
                decreases seg.data@.len() - j,
            {
                let ghost it_fm = *fm;
                proof {
                    assert(j / PAGE_SIZE < seg.pages) by (nonlinear_arith)
                        requires
                            0 <= j < seg.pages * PAGE_SIZE,
                            PAGE_SIZE > 0,
                    ;
                }
                let vpn = seg.start_vpn + j / PAGE_SIZE;
                proof {
                    assert(ms.in_area(ms.areas@.len() - 1, vpn as int));
                }
                let entry = ms.translate(vpn).unwrap();
                proof {
                    assert(ms.owned().contains(entry.ppn as int)) by {
                        assert(ms.areas@[last0].frames@[vpn - seg.start_vpn] as int
                            == entry.ppn as int);
                    }
                    assert(fm.allocated().contains(entry.ppn as int));
                }
                fm.write_byte(entry.ppn, j % PAGE_SIZE, seg.data[j]);
                proof {
                    FrameManager::lemma_allocated_congruence(*fm, it_fm);
                    lemma_page_split(seg.start_vpn as int, j as int);
                    assert(ms.ppn_of(vpn as int) == entry.ppn as int);
                    assert(ms.byte_at(*fm, base + j) == seg.data@[j as int]);
                    assert forall|a: int|
                        base <= a < base + seg.pages * PAGE_SIZE implies #[trigger] ms.byte_at(
                        *fm,
                        a,
                    ) == (if a - base < j + 1 {
                        seg.data@[a - base]
                    } else {
                        0u8
                    }) by {
                        let o = a - base;
                        if o != j {
                            lemma_page_split(seg.start_vpn as int, o);
                            assert((o / PAGE_SIZE as int) < seg.pages) by (nonlinear_arith)
                                requires
                                    0 <= o < seg.pages * PAGE_SIZE,
                                    PAGE_SIZE > 0,
                            ;
                            let vo = a / PAGE_SIZE as int;
                            assert(ms.in_area(last0, vo));
                            if vo == vpn as int {
                                vstd::arithmetic::div_mod::lemma_fundamental_div_mod(
                                    o,
                                    PAGE_SIZE as int,
                                );
                                vstd::arithmetic::div_mod::lemma_fundamental_div_mod(
                                    j as int,
                                    PAGE_SIZE as int,
                                );
                                assert(o % PAGE_SIZE as int != j as int % PAGE_SIZE as int);
                            } else {
                                assert(ms.areas@[last0].frames@[vo - seg.start_vpn]
                                    != ms.areas@[last0].frames@[vpn - seg.start_vpn]);
                                assert(ms.ppn_of(vo) != entry.ppn as int);
                                ms.lemma_area_page_owned(it_fm, last0, vo);
                            }
                            assert(ms.byte_at(it_fm, a) == (if a - base < j {
                                seg.data@[a - base]
                            } else {
                                0u8
                            }));
                        }
                    }
                }
                j += 1;
            }
            if e > max_end {
                max_end = e;
            }
            proof {
                assert forall|q: int| pre_fm.allocated().contains(q) implies fm.frame(q)
                    == pre_fm.frame(q) by {
                    if exists|kk: int|
                        0 <= kk < ms.areas@[last0].frames@.len()
                            && #[trigger] ms.areas@[last0].frames@[kk] as int == q {
                        let kk = choose|kk: int|
                            0 <= kk < ms.areas@[last0].frames@.len()
                                && #[trigger] ms.areas@[last0].frames@[kk] as int == q;
                        assert(ms.owned().contains(q));
                        assert(false);
                    }
                }
                assert(ms.regions().len() == ms.areas@.len());
                assert(iter_ms.regions().len() == iter_ms.areas@.len());
                assert forall|a: int| 0 <= a < ms.areas@.len() implies {
                    &&& (#[trigger] ms.areas@[a]).start_vpn < ms.areas@[a].end_vpn
                    &&& ms.areas@[a].end_vpn <= max_end
                } by {
                    assert(ms.regions()[a].0 == ms.areas@[a].start_vpn as int);
                    assert(ms.regions()[a].1 == ms.areas@[a].end_vpn as int);
                    if a < ms.areas@.len() - 1 {
                        assert(ms.regions()[a] == iter_ms.regions()[a]);
                        assert(iter_ms.regions()[a].0 == iter_ms.areas@[a].start_vpn as int);
                        assert(iter_ms.regions()[a].1 == iter_ms.areas@[a].end_vpn as int);
                    } else {
                        assert(ms.regions()[a] == (seg.start_vpn as int, e as int, seg.perm));
                    }
                }
                assert forall|a: int| 0 <= a < i + 1 implies #[trigger] ms.regions()[a] == (
                    img.segments@[a].start_vpn as int,
                    img.segments@[a].start_vpn + img.segments@[a].pages,
                    img.segments@[a].perm,
                ) by {
                    if a < i {
                        assert(ms.regions()[a] == iter_ms.regions()[a]);
                    } else {
                        assert(ms.regions()[a] == (seg.start_vpn as int, e as int, seg.perm));
                    }
                }
                assert forall|a2: int, adr: int|
                    #![trigger img.segments@[a2], ms.byte_at(*fm, adr)]
                    0 <= a2 < i + 1 && img.segments@[a2].start_vpn * PAGE_SIZE <= adr
                        < img.segments@[a2].start_vpn * PAGE_SIZE + img.segments@[a2].pages
                        * PAGE_SIZE implies ms.byte_at(*fm, adr) == (if adr
                    - img.segments@[a2].start_vpn * PAGE_SIZE
                    < img.segments@[a2].data@.len() {
                    img.segments@[a2].data@[adr - img.segments@[a2].start_vpn * PAGE_SIZE]
                } else {
                    0u8
                }) by {
                    let sa = img.segments@[a2].start_vpn as int;
                    let ba = sa * PAGE_SIZE as int;
                    let o = adr - ba;
                    lemma_page_split(sa, o);
                    assert((o / PAGE_SIZE as int) < img.segments@[a2].pages)
                        by (nonlinear_arith)
                        requires
                            0 <= o < img.segments@[a2].pages * PAGE_SIZE,
                            PAGE_SIZE > 0,
                    ;
                    let v = adr / PAGE_SIZE as int;
                    if a2 == i as int {
                        assert(ms.byte_at(*fm, base + o) == (if o < seg.data@.len() {
                            seg.data@[o]
                        } else {
                            0u8
                        }));
                    } else {
                        assert(iter_ms.regions()[a2] == (
                            sa,
                            sa + img.segments@[a2].pages,
                            img.segments@[a2].perm,
                        ));
                        assert(iter_ms.regions()[a2].0 == iter_ms.areas@[a2].start_vpn as int);
                        assert(iter_ms.regions()[a2].1 == iter_ms.areas@[a2].end_vpn as int);
                        assert(iter_ms.in_area(a2, v));
                        assert(iter_ms.can_insert(iter_fm, seg.start_vpn as int, e as int));
                        assert(e <= iter_ms.areas@[a2].start_vpn || iter_ms.areas@[a2].end_vpn
                            <= seg.start_vpn);
                        assert(!(seg.start_vpn <= v < e));
                        assert(ms.pt.slots@[v] == iter_ms.pt.slots@[v]);
                        let pp = iter_ms.ppn_of(v);
                        iter_ms.lemma_area_page_owned(iter_fm, a2, v);
                        assert(ms.ppn_of(v) == pp);
                        assert(ins_fm.frame(pp) == iter_fm.frame(pp));
                        if exists|kk: int|
                            0 <= kk < ms.areas@[last0].frames@.len()
                                && #[trigger] ms.areas@[last0].frames@[kk] as int == pp {
                            let kk = choose|kk: int|
                                0 <= kk < ms.areas@[last0].frames@.len()
                                    && #[trigger] ms.areas@[last0].frames@[kk] as int == pp;
                            assert(ms.in_area(last0, seg.start_vpn + kk));
                            assert(ms.ppn_of(seg.start_vpn + kk) == pp);
                            assert(!iter_fm.allocated().contains(pp));
                            assert(false);
                        }
                        assert(fm.allocated().contains(pp));
                        assert(fm.frame(pp) == ins_fm.frame(pp));
                        assert(ms.byte_at(*fm, adr) == iter_ms.byte_at(iter_fm, adr));
                    }
                }
            }
            i += 1;
        }
        let ghost ms_loop = ms;
        let ghost fm_loop = *fm;
        if max_end + 1 + USER_STACK_PAGES > TRAP_CONTEXT_VPN {
            ms.release(fm);
            return None;
        }
        let stack_start = max_end + 1;
        let stack_end = stack_start + USER_STACK_PAGES;
        let ok = ms.insert_framed_area(fm, stack_start, stack_end, PTE_U | PTE_R | PTE_W);
        if !ok {
            ms.release(fm);
            return None;
        }
        let ghost ms_stack = ms;
        let ghost fm_stack = *fm;
        proof {
            assert(ms.regions().len() == ms.areas@.len());
            assert(ms_loop.regions().len() == ms_loop.areas@.len());
            assert(ms.regions() == ms_loop.regions().push(
                (stack_start as int, stack_end as int, (PTE_U | PTE_R | PTE_W) as u8),
            ));
            assert forall|a: int|
                0 <= a < ms.areas@.len() implies stack_end <= (
            #[trigger] ms.areas@[a]).start_vpn || ms.areas@[a].end_vpn <= stack_end by {
                assert(ms.regions()[a].0 == ms.areas@[a].start_vpn as int);
                assert(ms.regions()[a].1 == ms.areas@[a].end_vpn as int);
                if a < ms_loop.areas@.len() {
                    assert(ms.regions()[a] == ms_loop.regions()[a]);
                    assert(ms_loop.regions()[a].1 == ms_loop.areas@[a].end_vpn as int);
                    assert(ms_loop.areas@[a].end_vpn <= max_end);
                } else {
                    assert(ms.regions()[a] == (
                        stack_start as int,
                        stack_end as int,
                        (PTE_U | PTE_R | PTE_W) as u8,
                    ));
                }
            }
        }
        let ok2 = ms.push_empty_area(stack_end, PTE_U | PTE_R | PTE_W);
        if !ok2 {
            proof {
                assert(false);
            }
            ms.release(fm);
            return None;
        }
        let ghost ms_heap = ms;
        let ghost heap_idx = ms.areas@.len() - 1;
        proof {
            if placeable {
                assert(ms.regions().len() == ms.areas@.len());
                assert(ms_stack.regions().len() == ms_stack.areas@.len());
                assert(ms.regions() == ms_stack.regions().push(
                    (stack_end as int, stack_end as int, (PTE_U | PTE_R | PTE_W) as u8),
                ));
                assert forall|a: int|
                    0 <= a < ms.areas@.len() implies TRAP_CONTEXT_VPN as int + 1 <= (
                #[trigger] ms.areas@[a]).start_vpn || ms.areas@[a].end_vpn
                    <= TRAP_CONTEXT_VPN by {
                    assert(ms.regions()[a].0 == ms.areas@[a].start_vpn as int);
                    assert(ms.regions()[a].1 == ms.areas@[a].end_vpn as int);
                    if a < ms_stack.areas@.len() {
                        assert(ms.regions()[a] == ms_stack.regions()[a]);
                        assert(ms_stack.areas@[a].end_vpn <= stack_end);
                        assert(ms_stack.regions()[a].1 == ms_stack.areas@[a].end_vpn as int);
                    } else {
                        assert(ms.regions()[a] == (
                            stack_end as int,
                            stack_end as int,
                            (PTE_U | PTE_R | PTE_W) as u8,
                        ));
                    }
                }
                lemma_segs_pages_mono(img.segments@, nseg as int, img.segments@.len() as int);
                assert(fm.avail() >= 1);
                assert(ms.can_insert(
                    *fm,
                    TRAP_CONTEXT_VPN as int,
                    TRAP_CONTEXT_VPN as int + 1,
                ));
            }
        }
        let ok3 = ms.insert_framed_area(
            fm,
            TRAP_CONTEXT_VPN,
            TRAP_CONTEXT_VPN + 1,
            PTE_R | PTE_W,
        );
        if !ok3 {
            proof {
                if placeable {
                    assert(false);
                }
            }
            ms.release(fm);
            return None;
        }
        let usp = stack_end * PAGE_SIZE;
        proof {
            let hv = usp as int / PAGE_SIZE as int;
            assert(usp == stack_end * PAGE_SIZE);
            assert(hv == stack_end as int) by (nonlinear_arith)
                requires
                    usp == stack_end * PAGE_SIZE,
                    hv == usp as int / PAGE_SIZE as int,
                    PAGE_SIZE > 0,
            ;
            assert(usp as int % PAGE_SIZE as int == 0) by (nonlinear_arith)
                requires
                    usp == stack_end * PAGE_SIZE,
                    PAGE_SIZE > 0,
            ;
            assert(ms.regions().len() == ms.areas@.len());
            assert(ms_heap.regions().len() == ms_heap.areas@.len());
            assert(ms_stack.regions().len() == ms_stack.areas@.len());
            assert(ms_loop.regions().len() == ms_loop.areas@.len());
            assert(ms.regions() == ms_heap.regions().push(
                (TRAP_CONTEXT_VPN as int, TRAP_CONTEXT_VPN as int + 1, (PTE_R | PTE_W) as u8),
            ));
            assert(ms.areas@.len() == ms_heap.areas@.len() + 1);
            assert(heap_idx == ms_heap.areas@.len() - 1);
            assert(ms.areas@[heap_idx].start_vpn == stack_end
                && ms.areas@[heap_idx].end_vpn == stack_end) by {
                assert(ms_heap.regions()[heap_idx] == (
                    stack_end as int,
                    stack_end as int,
                    (PTE_U | PTE_R | PTE_W) as u8,
                ));
                assert(ms.regions()[heap_idx] == ms_heap.regions()[heap_idx]);
            }
            lemma_first_start(ms.areas@, hv);
            let fsi = first_start(ms.areas@, hv);
            assert(fsi <= heap_idx);
            if fsi < heap_idx {
                assert(ms.areas@[fsi].start_vpn as int == hv);
                assert(ms.regions()[fsi].0 == hv);
                assert(ms.regions()[fsi] == ms_heap.regions()[fsi]);
                assert(ms_heap.regions()[fsi] == ms_stack.regions()[fsi]);
                if fsi < ms_loop.areas@.len() {
                    assert(ms_stack.regions()[fsi] == ms_loop.regions()[fsi]);
                    assert(ms_loop.regions()[fsi].0 == ms_loop.areas@[fsi].start_vpn as int);
                    assert(ms_loop.areas@[fsi].start_vpn < ms_loop.areas@[fsi].end_vpn);
                    assert(ms_loop.areas@[fsi].end_vpn <= max_end);
                    assert(false);
                } else {
                    assert(ms_stack.regions()[fsi] == (
                        stack_start as int,
                        stack_end as int,
                        (PTE_U | PTE_R | PTE_W) as u8,
                    ));
                    assert(false);
                }
            }
            assert(ms.regions()[fsi] == (hv, hv, (PTE_U | PTE_R | PTE_W) as u8));
            assert(ms.translated(TRAP_CONTEXT_VPN as int) is Some);
            assert(ms_stack.regions() == ms_loop.regions().push(
                (stack_start as int, stack_end as int, (PTE_U | PTE_R | PTE_W) as u8),
            ));
            assert forall|a: int| 0 <= a < img.segments@.len() implies #[trigger] ms.regions()[a]
                == (
                img.segments@[a].start_vpn as int,
                img.segments@[a].start_vpn + img.segments@[a].pages,
                img.segments@[a].perm,
            ) by {
                assert(ms.regions()[a] == ms_heap.regions()[a]);
                assert(ms_heap.regions()[a] == ms_stack.regions()[a]);
                assert(ms_stack.regions()[a] == ms_loop.regions()[a]);
            }
            assert(ms.regions()[img.segments@.len() as int] == (
                stack_start as int,
                stack_end as int,
                (PTE_U | PTE_R | PTE_W) as u8,
            ));
            assert(ms.regions()[img.segments@.len() as int + 1] == (
                stack_end as int,
                stack_end as int,
                (PTE_U | PTE_R | PTE_W) as u8,
            ));
            assert(image_loaded(ms, *fm, *img)) by {
                assert forall|a2: int, adr: int|
                    #![trigger img.segments@[a2], ms.byte_at(*fm, adr)]
                    0 <= a2 < img.segments@.len() && img.segments@[a2].start_vpn * PAGE_SIZE
                        <= adr < img.segments@[a2].start_vpn * PAGE_SIZE
                        + img.segments@[a2].pages * PAGE_SIZE implies ms.byte_at(*fm, adr)
                    == (if adr - img.segments@[a2].start_vpn * PAGE_SIZE
                    < img.segments@[a2].data@.len() {
                    img.segments@[a2].data@[adr - img.segments@[a2].start_vpn * PAGE_SIZE]
                } else {
                    0u8
                }) by {
                    let sa = img.segments@[a2].start_vpn as int;
                    let ba = sa * PAGE_SIZE as int;
                    let o = adr - ba;
                    lemma_page_split(sa, o);
                    assert((o / PAGE_SIZE as int) < img.segments@[a2].pages)
                        by (nonlinear_arith)
                        requires
                            0 <= o < img.segments@[a2].pages * PAGE_SIZE,
                            PAGE_SIZE > 0,
                    ;
                    let v = adr / PAGE_SIZE as int;
                    assert(ms_loop.regions()[a2] == (
                        sa,
                        sa + img.segments@[a2].pages,
                        img.segments@[a2].perm,
                    ));
                    assert(ms_loop.regions()[a2].0 == ms_loop.areas@[a2].start_vpn as int);
                    assert(ms_loop.regions()[a2].1 == ms_loop.areas@[a2].end_vpn as int);
                    assert(ms_loop.in_area(a2, v));
                    assert(ms_loop.areas@[a2].end_vpn <= max_end);
                    assert(!(stack_start <= v < stack_end));
                    assert(!(TRAP_CONTEXT_VPN <= v < TRAP_CONTEXT_VPN + 1));
                    assert(ms_stack.pt.slots@[v] == ms_loop.pt.slots@[v]);
                    assert(ms_heap.pt.slots@[v] == ms_stack.pt.slots@[v]);
                    assert(ms.pt.slots@[v] == ms_heap.pt.slots@[v]);
                    let pp = ms_loop.ppn_of(v);
                    ms_loop.lemma_area_page_owned(fm_loop, a2, v);
                    assert(fm_stack.frame(pp) == fm_loop.frame(pp));
                    assert(fm_stack.allocated().contains(pp));
                    assert(fm.frame(pp) == fm_stack.frame(pp));
                    assert(ms.ppn_of(v) == pp);
                    assert(ms.byte_at(*fm, adr) == ms_loop.byte_at(fm_loop, adr));
                }
            }
        }
        Some((ms, usp, img.entry))
    }
}

} // verus!
