//! Logical memory areas and address spaces.
//!
//! A memory area is a half-open range of virtual pages with permissions.
//! A framed area owns one data frame per page and maps each page to it; an
//! identical area maps each page to the physical page of the same number.
//! The address space keeps its areas and its page table in agreement.
use vstd::prelude::*;
use crate::address::{PhysPageNum, VirtAddr, VirtPageNum, PAGE_BYTES, VA_LIMIT, VPN_LIMIT};
use crate::config::{KERNEL_STACK_SIZE, PAGE_SIZE, TRAMPOLINE};
use crate::page_table::{
    frame_zeroed, frames_needed, lookup, pte_at, pte_bits, pte_ppn, same_frame, walk_in_range, PTEFlags, PageTable,
    PageTableEntry, PhysMem,
};

verus! {

/// Whether an area maps pages to frames of the same number or to frames of
/// its own.
#[derive(Copy, Clone, PartialEq, Eq, Structural)]
pub enum MapType {
    Identical,
    Framed,
}

/// Map permissions, with the bit positions of the page-table entry flags:
/// readable, writable, executable, and accessible in user mode.
#[derive(Copy, Clone, PartialEq, Eq, Structural)]
pub struct MapPermission {
    bits: u8,
}

impl MapPermission {
    /// Readable
    pub const R: u8 = 2;
    /// Writable
    pub const W: u8 = 4;
    /// Executable
    pub const X: u8 = 8;
    /// Accessible in U mode
    pub const U: u8 = 16;

    /// The permission bits.
    pub closed spec fn value(&self) -> u8 {
        self.bits
    }

    /// The permissions with these bits, if all of them are permission bits.
    pub fn from_bits(bits: u8) -> (r: Option<Self>)
        ensures
            (bits & 0xe1u8 == 0) == r is Some,
            r matches Some(p) ==> p.value() == bits,
    {
        if bits & 0xe1 == 0 {
            Some(Self { bits })
        } else {
            None
        }
    }

    /// The permission bits.
    pub fn bits(&self) -> (r: u8)
        ensures
            r == self.value(),
    {
        self.bits
    }

    /// These permissions together with `other`.
    pub fn union(&self, other: MapPermission) -> (r: Self)
        ensures
            r.value() == self.value() | other.value(),
    {
        Self { bits: self.bits | other.bits }
    }
}

/// The entry with which an area maps a page to `frame` under `perm`.
pub open spec fn area_entry(frame: int, perm: u8) -> PageTableEntry {
    PageTableEntry { bits: pte_bits(frame as u64, perm | PTEFlags::V) }
}

/// A contiguous range of virtual pages with one kind of mapping.
pub struct MapArea {
    vpn_start: VirtPageNum,
    vpn_end: VirtPageNum,
    data_frames: Vec<PhysPageNum>,
    map_type: MapType,
    map_perm: MapPermission,
}

impl MapArea {
    /// The first page.
    pub closed spec fn start(&self) -> int {
        self.vpn_start.0 as int
    }

    /// The page after the last.
    pub closed spec fn end(&self) -> int {
        self.vpn_end.0 as int
    }

    /// The permission bits.
    pub closed spec fn perm(&self) -> u8 {
        self.map_perm.value()
    }

    /// Whether the area has frames of its own.
    pub closed spec fn framed(&self) -> bool {
        self.map_type == MapType::Framed
    }

    /// The frame that page `p` of the area is mapped to.
    pub closed spec fn frame_of(&self, p: int) -> int {
        if self.framed() {
            self.data_frames@[p - self.start()].0 as int
        } else {
            p
        }
    }

    /// The data frames of a framed area, one per page in page order.
    pub closed spec fn frames(&self) -> Seq<PhysPageNum> {
        self.data_frames@
    }
}

/// An address space: a page table and the areas that it maps.
pub struct MemorySet {
    page_table: PageTable,
    areas: Vec<MapArea>,
}

/// Page `p` is mapped with entry `e`.
pub open spec fn maps_to(m: Map<int, PageTableEntry>, p: int, e: PageTableEntry) -> bool {
    m.contains_key(p) && m[p] == e
}

/// Two page ranges share no page.
pub open spec fn ranges_disjoint(s1: int, e1: int, s2: int, e2: int) -> bool {
    e1 <= s2 || e2 <= s1 || s1 == e1 || s2 == e2
}

impl MemorySet {
    /// The areas in order.
    pub closed spec fn areas(&self) -> Seq<MapArea> {
        self.areas@
    }

    /// The pages mapped, each with its entry.
    pub closed spec fn mapped(&self, mem: &PhysMem) -> Map<int, PageTableEntry> {
        self.page_table.mapped(mem)
    }

    /// The root frame of the page table.
    pub closed spec fn root(&self) -> int {
        self.page_table.root()
    }

    /// The page-table frames of the address space.
    pub closed spec fn table_frames(&self) -> Set<int> {
        self.page_table.owned()
    }

    /// The address space's invariant: a well-formed page table; disjoint
    /// areas within the Sv39 page range; every page of an area mapped to its
    /// frame with the area's permissions; and the data frames of framed
    /// areas handed out, distinct, and not page-table frames.
    pub closed spec fn wf(&self, mem: &PhysMem) -> bool {
        let areas = self.areas@;
        &&& mem.wf()
        &&& self.page_table.wf(mem)
        &&& forall|a: int|
            0 <= a < areas.len() ==> 0 <= (#[trigger] areas[a]).start() <= areas[a].end()
                <= VPN_LIMIT
        &&& forall|a: int|
            0 <= a < areas.len() ==> (#[trigger] areas[a]).framed() && areas[a].frames().len()
                == areas[a].end() - areas[a].start()
        &&& forall|a: int, b: int|
            0 <= a < areas.len() && 0 <= b < areas.len() && a != b ==> ranges_disjoint(
                #[trigger] areas[a].start(),
                areas[a].end(),
                #[trigger] areas[b].start(),
                areas[b].end(),
            )
        &&& forall|a: int, p: int|
            #![trigger areas[a].frame_of(p)]
            0 <= a < areas.len() && areas[a].start() <= p < areas[a].end() ==> maps_to(
                self.mapped(mem),
                p,
                area_entry(areas[a].frame_of(p), areas[a].perm()),
            )
        &&& forall|a: int, k: int|
            0 <= a < areas.len() && areas[a].framed() && 0 <= k < areas[a].frames().len() ==> {
                let f = (#[trigger] areas[a].frames()[k]).0 as int;
                &&& mem.is_allocated(f)
                &&& !self.page_table.owned().contains(f)
            }
        &&& forall|a: int, k: int, b: int, l: int|
            0 <= a < areas.len() && areas[a].framed() && 0 <= k < areas[a].frames().len() && 0
                <= b < areas.len() && areas[b].framed() && 0 <= l < areas[b].frames().len() && (a
                != b || k != l) ==> (#[trigger] areas[a].frames()[k]) != (
            #[trigger] areas[b].frames()[l])
    }

    /// An empty address space with a fresh page table.
    pub fn new_bare(mem: &mut PhysMem) -> (r: Self)
        requires
            old(mem).wf(),
            old(mem).free_count() > 0,
        ensures
            r.wf(final(mem)),
            r.areas() == Seq::<MapArea>::empty(),
            r.mapped(final(mem)) == Map::<int, PageTableEntry>::empty(),
            final(mem).free_count() == old(mem).free_count() - 1,
            final(mem).frame_count() == old(mem).frame_count(),
            !old(mem).is_allocated(r.root()),
            r.table_frames() == set![r.root()],
            forall|q: int| q != r.root() ==> #[trigger] final(mem).is_allocated(q) == old(mem).is_allocated(q),
            forall|q: int|
                0 <= q < old(mem).frame_count() && q != r.root() ==> #[trigger] same_frame(
                    old(mem).ptes(),
                    final(mem).ptes(),
                    q,
                ),
    {
        let page_table = PageTable::new(mem);
        proof {
            page_table.lemma_mem_wf(mem);
        }
        Self { page_table, areas: Vec::new() }
    }

    /// The page table token.
    pub fn token(&self) -> (r: u64)
        ensures
            r == crate::page_table::SATP_SV39 | (self.root() as u64),
    {
        self.page_table.token()
    }

    /// The last-level entry for `vpn`, if its walk reaches one.
    pub fn translate(&self, mem: &PhysMem, vpn: VirtPageNum) -> (r: Option<PageTableEntry>)
        requires
            self.wf(mem),
        ensures
            r == lookup(mem.ptes(), self.root(), vpn.0 as int),
            vpn.0 < VPN_LIMIT ==> (self.mapped(mem).contains_key(vpn.0 as int) <==> (r is Some
                && r.unwrap().valid())),
    {
        proof {
            self.page_table.lemma_walks_in_range(mem, vpn.0 as int);
        }
        self.page_table.translate(mem, vpn)
    }

    /// Check whether any page in `[start, end)` has a valid mapping.
    pub fn has_mapped_pages(&self, mem: &PhysMem, start: VirtPageNum, end: VirtPageNum) -> (r: bool)
        requires
            self.wf(mem),
            end.0 <= VPN_LIMIT,
        ensures
            r == exists|p: int| start.0 <= p < end.0 && #[trigger] self.mapped(mem).contains_key(p),
    {
        let mut p = start.0;
        while p < end.0
            invariant
                self.wf(mem),
                start.0 <= p,
                end.0 <= VPN_LIMIT,
                forall|q: int| start.0 <= q < p ==> !#[trigger] self.mapped(mem).contains_key(q),
            decreases end.0 - p,
        {
            match self.translate(mem, VirtPageNum(p)) {
                Some(pte) => {
                    if pte.is_valid() {
                        assert(self.mapped(mem).contains_key(p as int));
                        return true;
                    }
                },
                None => {},
            }
            p = p + 1;
        }
        false
    }

    /// Check whether any page in `[start, end)` lacks a valid mapping.
    pub fn has_unmapped_pages(&self, mem: &PhysMem, start: VirtPageNum, end: VirtPageNum) -> (r: bool)
        requires
            self.wf(mem),
            end.0 <= VPN_LIMIT,
        ensures
            r == exists|p: int| start.0 <= p < end.0 && !#[trigger] self.mapped(mem).contains_key(p),
    {
        let mut p = start.0;
        while p < end.0
            invariant
                self.wf(mem),
                start.0 <= p,
                end.0 <= VPN_LIMIT,
                forall|q: int| start.0 <= q < p ==> #[trigger] self.mapped(mem).contains_key(q),
            decreases end.0 - p,
        {
            match self.translate(mem, VirtPageNum(p)) {
                Some(pte) => {
                    if !pte.is_valid() {
                        assert(!self.mapped(mem).contains_key(p as int));
                        return true;
                    }
                },
                None => {
                    assert(!self.mapped(mem).contains_key(p as int));
                    return true;
                },
            }
            p = p + 1;
        }
        false
    }
}

/// Return (bottom, top) of the kernel stack of application `app_id` in kernel
/// space: stacks lie below the trampoline, each under a guard page.
pub fn kernel_stack_position(app_id: usize) -> (r: (usize, usize))
    requires
        app_id * (KERNEL_STACK_SIZE + PAGE_SIZE) + KERNEL_STACK_SIZE <= TRAMPOLINE,
    ensures
        r.1 == TRAMPOLINE - app_id * (KERNEL_STACK_SIZE + PAGE_SIZE),
        r.0 == r.1 - KERNEL_STACK_SIZE,
{
    let top = TRAMPOLINE - app_id * (KERNEL_STACK_SIZE + PAGE_SIZE);
    let bottom = top - KERNEL_STACK_SIZE;
    (bottom, top)
}


/// Frames `frames[lo..hi]` are pairwise distinct.
pub open spec fn distinct_frames(frames: Seq<PhysPageNum>, lo: int, hi: int) -> bool {
    forall|k: int, l: int| lo <= k < hi && lo <= l < hi && k != l ==> #[trigger] frames[k] != #[trigger] frames[l]
}

/// Unmap pages `[s, e)` of `pt`, page `p` being mapped to the data frame
/// `frames[p - base]`, and return those frames to the allocator.
#[verifier::spinoff_prover]
fn release_range(
    pt: &mut PageTable,
    mem: &mut PhysMem,
    s: u64,
    e: u64,
    frames: &Vec<PhysPageNum>,
    base: u64,
)
    requires
        old(pt).wf(old(mem)),
        base <= s <= e <= VPN_LIMIT,
        e - base <= frames@.len(),
        forall|p: int| s <= p < e ==> #[trigger] old(pt).mapped(old(mem)).contains_key(p),
        forall|k: int|
            s - base <= k < e - base ==> #[trigger] old(mem).is_allocated(frames@[k].0 as int)
                && !old(pt).owned().contains(frames@[k].0 as int),
        distinct_frames(frames@, s - base, e - base),
    ensures
        final(pt).wf(final(mem)),
        final(pt).root() == old(pt).root(),
        final(pt).owned() == old(pt).owned(),
        final(mem).frame_count() == old(mem).frame_count(),
        final(mem).free_count() == old(mem).free_count() + (e - s),
        forall|q: int|
            0 <= q < old(mem).frame_count() && !old(pt).owned().contains(q) ==> #[trigger] same_frame(
                old(mem).ptes(),
                final(mem).ptes(),
                q,
            ),
        forall|p: int|
            #[trigger] final(pt).mapped(final(mem)).contains_key(p) == (old(pt).mapped(
                old(mem),
            ).contains_key(p) && !(s <= p < e)),
        forall|p: int|
            #[trigger] final(pt).mapped(final(mem)).contains_key(p) ==> final(pt).mapped(final(mem))[p]
                == old(pt).mapped(old(mem))[p],
        forall|q: int|
            #[trigger] final(mem).is_allocated(q) == (old(mem).is_allocated(q) && !exists|k: int|
                s - base <= k < e - base && frames@[k].0 == q),
{
    let mut p = s;
    while p < e
        invariant
            pt.wf(mem),
            base <= s <= p <= e <= VPN_LIMIT,
            e - base <= frames@.len(),
            pt.root() == old(pt).root(),
            pt.owned() == old(pt).owned(),
            mem.frame_count() == old(mem).frame_count(),
            mem.free_count() == old(mem).free_count() + (p - s),
            forall|q: int|
                0 <= q < old(mem).frame_count() && !old(pt).owned().contains(q) ==> #[trigger] same_frame(
                    old(mem).ptes(),
                    mem.ptes(),
                    q,
                ),
            forall|q: int|
                #[trigger] pt.mapped(mem).contains_key(q) == (old(pt).mapped(old(mem)).contains_key(q)
                    && !(s <= q < p)),
            forall|q: int|
                #[trigger] pt.mapped(mem).contains_key(q) ==> pt.mapped(mem)[q] == old(pt).mapped(
                    old(mem),
                )[q],
            forall|q: int|
                #[trigger] mem.is_allocated(q) == (old(mem).is_allocated(q) && !exists|k: int|
                    s - base <= k < p - base && frames@[k].0 == q),
            forall|k: int|
                s - base <= k < e - base ==> #[trigger] old(mem).is_allocated(frames@[k].0 as int)
                    && !old(pt).owned().contains(frames@[k].0 as int),
            distinct_frames(frames@, s - base, e - base),
            forall|q: int| s <= q < e ==> #[trigger] old(pt).mapped(old(mem)).contains_key(q),
        decreases e - p,
    {
        assert(old(pt).mapped(old(mem)).contains_key(p as int));
        let ghost m_pre = mem.ptes();
        pt.unmap(mem, VirtPageNum(p));
        let ghost m_post = mem.ptes();
        proof {
            pt.lemma_mem_wf(mem);
            assert forall|q: int|
                0 <= q < old(mem).frame_count() && !old(pt).owned().contains(q) implies #[trigger] same_frame(
                    m_pre,
                    m_post,
                    q,
                ) by {
                assert forall|j: int| 0 <= j < 512 implies #[trigger] pte_at(m_post, q, j) == pte_at(m_pre, q, j) by {}
            }
        }
        let f = frames[(p - base) as usize];
        proof {
            let k0 = p - base;
            assert(old(mem).is_allocated(f.0 as int));
            assert(mem.is_allocated(f.0 as int)) by {
                if exists|k: int| s - base <= k < p - base && frames@[k].0 == f.0 {
                    let k = choose|k: int| s - base <= k < p - base && frames@[k].0 == f.0;
                    assert(frames@[k] == frames@[k0 as int]);
                }
            }
        }
        let ghost m_before = *mem;
        mem.frame_dealloc(f);
        proof {
            pt.lemma_mem_wf(&m_before);
            assert(!pt.owned().contains(f.0 as int));
            pt.lemma_wf_other_frames(&m_before, mem);
            assert forall|q: int| #[trigger] mem.is_allocated(q) == (old(mem).is_allocated(q) && !exists|k: int|
                s - base <= k < p + 1 - base && frames@[k].0 == q) by {
                if q == f.0 {
                    assert(frames@[p - base].0 == q);
                } else {
                    if exists|k: int| s - base <= k < p + 1 - base && frames@[k].0 == q {
                        let k = choose|k: int| s - base <= k < p + 1 - base && frames@[k].0 == q;
                        assert(k != p - base);
                    }
                }
            }
            assert(mem.ptes() == m_post);
            assert forall|q: int|
                0 <= q < old(mem).frame_count() && !old(pt).owned().contains(q) implies #[trigger] same_frame(
                    old(mem).ptes(),
                    mem.ptes(),
                    q,
                ) by {
                assert(same_frame(old(mem).ptes(), m_pre, q));
                assert(same_frame(m_pre, m_post, q));
                assert forall|j: int| 0 <= j < 512 implies #[trigger] pte_at(mem.ptes(), q, j) == pte_at(old(mem).ptes(), q, j) by {
                    assert(pte_at(m_post, q, j) == pte_at(m_pre, q, j));
                    assert(pte_at(m_pre, q, j) == pte_at(old(mem).ptes(), q, j));
                }
            }
        }
        p = p + 1;
    }
}


/// Map pages `[s, e)` of `pt`, all unmapped, to freshly handed-out data
/// frames with permissions `perm`, in page order; all or nothing. Returns the
/// frames, or `None` after undoing everything when frames run out.
#[verifier::spinoff_prover]
fn map_fresh_range(pt: &mut PageTable, mem: &mut PhysMem, s: u64, e: u64, perm: u8) -> (r: Option<
    Vec<PhysPageNum>,
>)
    requires
        old(pt).wf(old(mem)),
        s <= e <= VPN_LIMIT,
        forall|p: int| s <= p < e ==> !#[trigger] old(pt).mapped(old(mem)).contains_key(p),
    ensures
        final(pt).wf(final(mem)),
        final(pt).root() == old(pt).root(),
        old(pt).owned().subset_of(final(pt).owned()),
        forall|q: int|
            #[trigger] final(pt).owned().contains(q) && !old(pt).owned().contains(q) ==> !old(mem).is_allocated(q),
        forall|q: int| #[trigger] old(mem).is_allocated(q) ==> final(mem).is_allocated(q),
        final(mem).frame_count() == old(mem).frame_count(),
        old(mem).free_count() >= 3 * (e - s) ==> r is Some,
        r is Some ==> old(mem).free_count() >= e - s,
        r is Some ==> final(mem).free_count() + 3 * (e - s) >= old(mem).free_count(),
        r is None ==> final(pt).mapped(final(mem)) == old(pt).mapped(old(mem)),
        forall|q: int|
            0 <= q < old(mem).frame_count() && old(mem).is_allocated(q) && !final(pt).owned().contains(q)
                ==> #[trigger] same_frame(old(mem).ptes(), final(mem).ptes(), q),
        r matches Some(frames) ==> {
            &&& frames@.len() == e - s
            &&& distinct_frames(frames@, 0, e - s)
            &&& forall|k: int| 0 <= k < e - s ==> frame_zeroed(final(mem).ptes(), (#[trigger] frames@[k]).0 as int)
            &&& forall|k: int|
                0 <= k < e - s ==> !old(mem).is_allocated((#[trigger] frames@[k]).0 as int)
                    && final(mem).is_allocated(frames@[k].0 as int) && !final(pt).owned().contains(
                    frames@[k].0 as int,
                )
            &&& forall|p: int|
                #[trigger] final(pt).mapped(final(mem)).contains_key(p) == (old(pt).mapped(
                    old(mem),
                ).contains_key(p) || s <= p < e)
            &&& forall|p: int|
                s <= p < e ==> #[trigger] final(pt).mapped(final(mem))[p] == area_entry(
                    frames@[p - s].0 as int,
                    perm,
                )
            &&& forall|p: int|
                !(s <= p < e) && old(pt).mapped(old(mem)).contains_key(p) ==> #[trigger] final(pt).mapped(final(mem))[p] == old(pt).mapped(old(mem))[p]
        },
{
    let ghost free0 = mem.free_count();
    let ghost owned0 = pt.owned();
    let ghost mapped0 = pt.mapped(mem);
    let ghost mem0 = *mem;
    proof {
        pt.lemma_mem_wf(mem);
    }
    let mut frames: Vec<PhysPageNum> = Vec::new();
    let mut p = s;
    while p < e
        invariant
            pt.wf(mem),
            s <= p <= e <= VPN_LIMIT,
            pt.root() == old(pt).root(),
            frames@.len() == p - s,
            owned0 == old(pt).owned(),
            mapped0 == old(pt).mapped(old(mem)),
            mem0 == *old(mem),
            free0 == old(mem).free_count(),
            owned0.finite(),
            pt.owned().finite(),
            owned0.subset_of(pt.owned()),
            forall|q: int| #[trigger] pt.owned().contains(q) && !owned0.contains(q) ==> !mem0.is_allocated(q),
            forall|q: int| #[trigger] mem0.is_allocated(q) ==> mem.is_allocated(q),
            mem.frame_count() == mem0.frame_count(),
            distinct_frames(frames@, 0, p - s),
            forall|k: int|
                0 <= k < p - s ==> !mem0.is_allocated((#[trigger] frames@[k]).0 as int)
                    && mem.is_allocated(frames@[k].0 as int) && !pt.owned().contains(frames@[k].0 as int),
            forall|q: int| s <= q < e ==> !#[trigger] mapped0.contains_key(q),
            forall|q: int| #[trigger] pt.mapped(mem).contains_key(q) == (mapped0.contains_key(q) || s <= q < p),
            forall|q: int| s <= q < p ==> #[trigger] pt.mapped(mem)[q] == area_entry(frames@[q - s].0 as int, perm),
            forall|q: int|
                !(s <= q < p) && mapped0.contains_key(q) ==> #[trigger] pt.mapped(mem)[q] == mapped0[q],
            mem.free_count() + (pt.owned().len() - owned0.len()) + (p - s) == free0,
            forall|k: int| 0 <= k < p - s ==> (#[trigger] frames@[k]).0 < mem0.frame_count() && frame_zeroed(mem.ptes(), frames@[k].0 as int),
            forall|q: int|
                0 <= q < mem0.frame_count() && mem0.is_allocated(q) && !pt.owned().contains(q)
                    ==> #[trigger] same_frame(mem0.ptes(), mem.ptes(), q),
            pt.owned().len() <= owned0.len() + 2 * (p - s),
        decreases e - p,
    {
        let ghost m_before = *mem;
        proof {
            pt.lemma_mem_wf(mem);
        }
        let f = match mem.frame_alloc() {
            Some(f) => f,
            None => {
                let ghost m_r = mem.ptes();
                let ghost owned_r = pt.owned();
                release_range(pt, mem, s, p, &frames, s);
                proof {
                    assert forall|q: int|
                        0 <= q < old(mem).frame_count() && old(mem).is_allocated(q) && !pt.owned().contains(q)
                            implies #[trigger] same_frame(old(mem).ptes(), mem.ptes(), q) by {
                        assert(same_frame(mem0.ptes(), m_r, q));
                        assert(same_frame(m_r, mem.ptes(), q));
                        assert forall|j: int| 0 <= j < 512 implies #[trigger] pte_at(mem.ptes(), q, j) == pte_at(old(mem).ptes(), q, j) by {
                            assert(pte_at(mem.ptes(), q, j) == pte_at(m_r, q, j));
                            assert(pte_at(m_r, q, j) == pte_at(mem0.ptes(), q, j));
                        }
                    }
                    assert(pt.mapped(mem) =~= mapped0);
                    assert forall|q: int| #[trigger] mem0.is_allocated(q) implies mem.is_allocated(q) by {
                        if exists|k: int| 0 <= k < p - s && frames@[k].0 == q {
                            let k = choose|k: int| 0 <= k < p - s && frames@[k].0 == q;
                            assert(!mem0.is_allocated(frames@[k].0 as int));
                        }
                    }
                }
                return None;
            },
        };
        proof {
            pt.lemma_mem_wf(&m_before);
            assert(!pt.owned().contains(f.0 as int));
            pt.lemma_wf_other_frames(&m_before, mem);
            assert forall|k: int| 0 <= k < p - s implies frames@[k] != f by {
                assert(m_before.is_allocated(frames@[k].0 as int));
            }
            pt.lemma_never_blocked(mem, p as int);
            assert(!pt.mapped(mem).contains_key(p as int));
        }
        let ghost m_mid = *mem;
        let ghost owned_mid = pt.owned();
        let ghost mapped_mid = pt.mapped(mem);
        match pt.map(mem, VirtPageNum(p), f, PTEFlags::from_bits_truncate(perm)) {
            Some(()) => {},
            None => {
                proof {
                    pt.lemma_mem_wf(mem);
                    assert(!pt.owned().contains(f.0 as int));
                }
                let ghost m_fail = *mem;
                mem.frame_dealloc(f);
                proof {
                    pt.lemma_wf_other_frames(&m_fail, mem);
                }
                let ghost m_r = mem.ptes();
                release_range(pt, mem, s, p, &frames, s);
                proof {
                    assert forall|q: int|
                        0 <= q < old(mem).frame_count() && old(mem).is_allocated(q) && !pt.owned().contains(q)
                            implies #[trigger] same_frame(old(mem).ptes(), mem.ptes(), q) by {
                        assert(same_frame(mem0.ptes(), m_before.ptes(), q));
                        assert(m_before.is_allocated(q));
                        assert(q != f.0);
                        assert forall|j: int| 0 <= j < 512 implies #[trigger] pte_at(mem.ptes(), q, j) == pte_at(old(mem).ptes(), q, j) by {
                            assert(same_frame(m_r, mem.ptes(), q));
                            assert(pte_at(mem.ptes(), q, j) == pte_at(m_r, q, j));
                            assert(m_r == m_fail.ptes());
                            assert(pte_at(m_fail.ptes(), q, j) == pte_at(m_mid.ptes(), q, j));
                            assert(pte_at(m_mid.ptes(), q, j) == pte_at(m_before.ptes(), q, j));
                            assert(pte_at(m_before.ptes(), q, j) == pte_at(mem0.ptes(), q, j));
                        }
                    }
                    assert(pt.mapped(mem) =~= mapped0);
                    assert forall|q: int| #[trigger] mem0.is_allocated(q) implies mem.is_allocated(q) by {
                        if exists|k: int| 0 <= k < p - s && frames@[k].0 == q {
                            let k = choose|k: int| 0 <= k < p - s && frames@[k].0 == q;
                            assert(!mem0.is_allocated(frames@[k].0 as int));
                        }
                        assert(q != f.0);
                    }
                }
                return None;
            },
        }
        let ghost before = frames@;
        frames.push(f);
        proof {
            assert(!pt.owned().contains(f.0 as int));
            assert forall|k: int| 0 <= k < p + 1 - s implies (#[trigger] frames@[k]).0 < mem0.frame_count()
                && frame_zeroed(mem.ptes(), frames@[k].0 as int) by {
                let g = frames@[k].0 as int;
                if k < p - s {
                    assert(frames@[k] == before[k]);
                    assert(m_mid.is_allocated(g));
                    assert(!pt.owned().contains(g));
                    assert forall|j: int| 0 <= j < 512 implies #[trigger] pte_at(mem.ptes(), g, j).bits == 0 by {
                        assert(pte_at(mem.ptes(), g, j) == pte_at(m_mid.ptes(), g, j));
                        assert(g != f.0);
                        assert(pte_at(m_mid.ptes(), g, j) == pte_at(m_before.ptes(), g, j));
                        assert(frame_zeroed(m_before.ptes(), g));
                    }
                } else {
                    assert forall|j: int| 0 <= j < 512 implies #[trigger] pte_at(mem.ptes(), g, j).bits == 0 by {
                        assert(pte_at(mem.ptes(), g, j) == pte_at(m_mid.ptes(), g, j));
                    }
                }
            }
            assert forall|q: int|
                0 <= q < mem0.frame_count() && mem0.is_allocated(q) && !pt.owned().contains(q)
                    implies #[trigger] same_frame(mem0.ptes(), mem.ptes(), q) by {
                assert(m_before.is_allocated(q));
                assert(q != f.0);
                assert(!owned_mid.contains(q));
                assert(same_frame(mem0.ptes(), m_before.ptes(), q));
                assert forall|j: int| 0 <= j < 512 implies #[trigger] pte_at(mem.ptes(), q, j) == pte_at(mem0.ptes(), q, j) by {
                    assert(pte_at(mem.ptes(), q, j) == pte_at(m_mid.ptes(), q, j));
                    assert(pte_at(m_mid.ptes(), q, j) == pte_at(m_before.ptes(), q, j));
                }
            }
            assert forall|k: int| 0 <= k < p + 1 - s implies !mem0.is_allocated((#[trigger] frames@[k]).0 as int)
                && mem.is_allocated(frames@[k].0 as int) && !pt.owned().contains(frames@[k].0 as int) by {
                if k < p - s {
                    assert(frames@[k] == before[k]);
                    assert(m_mid.is_allocated(frames@[k].0 as int));
                }
            }
            assert forall|k: int, l: int|
                0 <= k < p + 1 - s && 0 <= l < p + 1 - s && k != l implies #[trigger] frames@[k] != #[trigger] frames@[l] by {
                if k < p - s && l < p - s {
                    assert(frames@[k] == before[k] && frames@[l] == before[l]);
                }
            }
            assert forall|q: int| s <= q < p + 1 implies #[trigger] pt.mapped(mem)[q] == area_entry(
                frames@[q - s].0 as int,
                perm,
            ) by {
                if q < p {
                    assert(frames@[q - s] == before[q - s]);
                }
            }
        }
        p = p + 1;
    }
    proof {
        vstd::set_lib::lemma_len_subset(owned0, pt.owned());
    }
    Some(frames)
}


/// The first page of the range that starts at address `va`.
pub open spec fn floor_page(va: VirtAddr) -> int {
    va.0 as int / PAGE_BYTES as int
}

/// The page after the last page of the range that ends at address `va`.
pub open spec fn ceil_page(va: VirtAddr) -> int {
    if va.0 == 0 {
        0
    } else {
        (va.0 - 1) / (PAGE_BYTES as int) + 1
    }
}

proof fn lemma_pages_in_range(va: VirtAddr)
    requires
        va.0 <= VA_LIMIT,
    ensures
        0 <= floor_page(va) <= ceil_page(va) <= VPN_LIMIT,
{
}

/// Page bounds grow with the address.
pub proof fn lemma_page_bounds(a: VirtAddr, b: VirtAddr)
    requires
        a.0 <= b.0,
    ensures
        floor_page(a) <= ceil_page(a),
        floor_page(a) <= floor_page(b),
        ceil_page(a) <= ceil_page(b),
{
    let x = a.0 as int;
    let y = b.0 as int;
    if x > 0 {
        assert(x / 4096 <= (x - 1) / 4096 + 1) by (nonlinear_arith)
            requires
                x > 0,
        ;
        assert((x - 1) / 4096 <= (y - 1) / 4096) by (nonlinear_arith)
            requires
                1 <= x <= y,
        ;
    }
    assert(x / 4096 <= y / 4096) by (nonlinear_arith)
        requires
            0 <= x <= y,
    ;
}

/// `ms1` over `mem1` is `ms0` over `mem0` with one more area, the last,
/// over pages `[s, e)` with permissions `perm`, each page mapped to a frame
/// that was free and now holds only zeros; the other mappings stay, and so
/// does the content of every frame that was handed out and is not a
/// page-table frame.
pub open spec fn area_appended(
    ms0: MemorySet,
    mem0: PhysMem,
    ms1: MemorySet,
    mem1: PhysMem,
    s: int,
    e: int,
    perm: u8,
) -> bool {
    let n = ms0.areas().len() as int;
    let area = ms1.areas()[n];
    &&& ms1.areas().len() == n + 1
    &&& ms1.areas().take(n) == ms0.areas()
    &&& area.start() == s
    &&& area.end() == e
    &&& area.perm() == perm
    &&& forall|p: int|
        #[trigger] ms1.mapped(&mem1).contains_key(p) == (ms0.mapped(&mem0).contains_key(p) || s <= p
            < e)
    &&& forall|p: int|
        s <= p < e ==> #[trigger] ms1.mapped(&mem1)[p] == area_entry(area.frame_of(p), perm)
            && !mem0.is_allocated(area.frame_of(p))
    &&& forall|p: int|
        !(s <= p < e) && ms0.mapped(&mem0).contains_key(p) ==> #[trigger] ms1.mapped(&mem1)[p]
            == ms0.mapped(&mem0)[p]
    &&& forall|p: int| s <= p < e ==> frame_zeroed(mem1.ptes(), #[trigger] area.frame_of(p))
    &&& forall|q: int|
        0 <= q < mem0.frame_count() && mem0.is_allocated(q) && !ms1.table_frames().contains(q)
            ==> #[trigger] same_frame(mem0.ptes(), mem1.ptes(), q)
}

impl MemorySet {
    /// Every page of an area is mapped to the area's frame for it.
    proof fn lemma_area_page(&self, mem: &PhysMem, a: int, p: int)
        requires
            self.wf(mem),
            0 <= a < self.areas().len(),
            self.areas()[a].start() <= p < self.areas()[a].end(),
        ensures
            self.mapped(mem).contains_key(p),
            self.mapped(mem)[p] == area_entry(self.areas()[a].frame_of(p), self.areas()[a].perm()),
    {
        assert(self.areas@[a].frame_of(p) == self.areas()[a].frame_of(p));
    }

    /// The index of the first area that starts at page `start`, if any.
    fn find_area(&self, start: u64) -> (r: Option<usize>)
        ensures
            r is None ==> forall|a: int| 0 <= a < self.areas().len() ==> (#[trigger] self.areas()[a]).start() != start,
            r matches Some(i) ==> i < self.areas().len() && self.areas()[i as int].start() == start
                && forall|a: int| 0 <= a < i ==> (#[trigger] self.areas()[a]).start() != start,
    {
        let mut i: usize = 0;
        while i < self.areas.len()
            invariant
                i <= self.areas@.len(),
                forall|a: int| 0 <= a < i ==> (#[trigger] self.areas()[a]).start() != start,
            decreases self.areas@.len() - i,
        {
            if self.areas[i].vpn_start.0 == start {
                return Some(i);
            }
            i = i + 1;
        }
        None
    }

    /// Add an area `[start_va.floor(), end_va.ceil())` with permissions
    /// `permission`, each page mapped to a new zeroed frame that the area owns.
    /// `None`, with the mappings and areas unchanged, when frames run out.
    #[verifier::spinoff_prover]
    pub fn insert_framed_area(
        &mut self,
        mem: &mut PhysMem,
        start_va: VirtAddr,
        end_va: VirtAddr,
        permission: MapPermission,
    ) -> (r: Option<()>)
        requires
            old(self).wf(old(mem)),
            start_va.0 <= end_va.0 <= VA_LIMIT,
            forall|p: int|
                floor_page(start_va) <= p < ceil_page(end_va) ==> !#[trigger] old(self).mapped(
                    old(mem),
                ).contains_key(p),
        ensures
            final(self).wf(final(mem)),
            final(self).root() == old(self).root(),
            forall|q: int| #[trigger] old(mem).is_allocated(q) ==> final(mem).is_allocated(q),
            final(mem).frame_count() == old(mem).frame_count(),
            old(mem).free_count() >= 3 * (ceil_page(end_va) - floor_page(start_va)) ==> r is Some,
            r is Some ==> old(mem).free_count() >= ceil_page(end_va) - floor_page(start_va),
            r is None ==> final(self).mapped(final(mem)) == old(self).mapped(old(mem))
                && final(self).areas() == old(self).areas(),
            r is Some ==> final(mem).free_count() + 3 * (ceil_page(end_va) - floor_page(start_va))
                >= old(mem).free_count(),
            r is Some ==> area_appended(
                *old(self),
                *old(mem),
                *final(self),
                *final(mem),
                floor_page(start_va),
                ceil_page(end_va),
                permission.value(),
            ),
            forall|q: int|
                0 <= q < old(mem).frame_count() && old(mem).is_allocated(q) && !final(self).table_frames().contains(q)
                    ==> #[trigger] same_frame(old(mem).ptes(), final(mem).ptes(), q),
            old(self).table_frames().subset_of(final(self).table_frames()),
            forall|q: int|
                #[trigger] final(self).table_frames().contains(q) && !old(self).table_frames().contains(q)
                    ==> !old(mem).is_allocated(q),
    {
        proof {
            lemma_pages_in_range(start_va);
            lemma_pages_in_range(end_va);
        }
        let s = start_va.floor().0;
        let e = end_va.ceil().0;
        let ghost old_areas = self.areas@;
        let ghost mapped0 = self.mapped(mem);
        let ghost mem0 = *mem;
        let ghost owned0 = self.page_table.owned();
        let frames = match map_fresh_range(&mut self.page_table, mem, s, e, permission.bits()) {
            Some(f) => f,
            None => {
                proof {
                    self.page_table.lemma_mem_wf(mem);
                    let areas = self.areas@;
                    assert forall|a: int, p: int|
                        #![trigger self.areas@[a].frame_of(p)]
                        0 <= a < self.areas@.len() && self.areas@[a].start() <= p < self.areas@[a].end() implies maps_to(
                        self.mapped(mem),
                        p,
                        area_entry(self.areas@[a].frame_of(p), self.areas@[a].perm()),
                    ) by {
                        old(self).lemma_area_page(old(mem), a, p);
                    }
                    assert forall|a: int, k: int|
                        0 <= a < areas.len() && areas[a].framed() && 0 <= k < areas[a].frames().len() implies {
                        let f = (#[trigger] areas[a].frames()[k]).0 as int;
                        &&& mem.is_allocated(f)
                        &&& !self.page_table.owned().contains(f)
                    } by {
                        let f = areas[a].frames()[k].0 as int;
                        assert(mem0.is_allocated(f));
                        assert(!owned0.contains(f));
                    }
                }
                return None;
            },
        };
        let area = MapArea {
            vpn_start: VirtPageNum(s),
            vpn_end: VirtPageNum(e),
            data_frames: frames,
            map_type: MapType::Framed,
            map_perm: permission,
        };
        self.areas.push(area);
        proof {
            self.page_table.lemma_mem_wf(mem);
            let areas = self.areas@;
            let n = old_areas.len() as int;
            assert(areas.take(n) =~= old_areas);
            assert forall|a: int| 0 <= a < n implies #[trigger] areas[a] == old_areas[a] by {}
            assert forall|a: int, b: int|
                0 <= a < areas.len() && 0 <= b < areas.len() && a != b implies ranges_disjoint(
                #[trigger] areas[a].start(),
                areas[a].end(),
                #[trigger] areas[b].start(),
                areas[b].end(),
            ) by {
                if a < n && b < n {
                } else {
                    let o = if a < n { a } else { b };
                    let os = old_areas[o].start();
                    let oe = old_areas[o].end();
                    if !(oe <= s || e <= os || os == oe || s == e) {
                        let p = if os < s { s as int } else { os };
                        assert(old_areas[o].start() <= p < old_areas[o].end());
                        assert(old(self).wf(old(mem)));
                        assert(old_areas == old(self).areas@);
                        assert(mapped0 == old(self).mapped(old(mem)));
                        assert(0 <= o < old_areas.len());
                        old(self).lemma_area_page(old(mem), o, p);
                        assert(mapped0.contains_key(p));
                    }
                }
            }
            assert forall|a: int, p: int|
                #![trigger self.areas@[a].frame_of(p)]
                0 <= a < self.areas@.len() && self.areas@[a].start() <= p < self.areas@[a].end() implies maps_to(
                self.mapped(mem),
                p,
                area_entry(self.areas@[a].frame_of(p), self.areas@[a].perm()),
            ) by {
                if a < n {
                    assert(old_areas[a].frame_of(p) == areas[a].frame_of(p));
                    old(self).lemma_area_page(old(mem), a, p);
                    assert(mapped0.contains_key(p));
                    assert(!(s <= p < e));
                }
            }
            assert forall|a: int, k: int|
                0 <= a < areas.len() && areas[a].framed() && 0 <= k < areas[a].frames().len() implies {
                let f = (#[trigger] areas[a].frames()[k]).0 as int;
                &&& mem.is_allocated(f)
                &&& !self.page_table.owned().contains(f)
            } by {
                if a < n {
                    let f = areas[a].frames()[k].0 as int;
                    assert(mem0.is_allocated(f));
                    assert(!owned0.contains(f));
                }
            }
            assert forall|a: int, k: int, b: int, l: int|
                0 <= a < areas.len() && areas[a].framed() && 0 <= k < areas[a].frames().len() && 0
                    <= b < areas.len() && areas[b].framed() && 0 <= l < areas[b].frames().len() && (a
                    != b || k != l) implies (#[trigger] areas[a].frames()[k]) != (
            #[trigger] areas[b].frames()[l]) by {
                if a < n && b == n {
                    assert(mem0.is_allocated(areas[a].frames()[k].0 as int));
                } else if a == n && b < n {
                    assert(mem0.is_allocated(areas[b].frames()[l].0 as int));
                }
            }
        }
        Some(())
    }

    /// Remove the first area whose pages are exactly `[start, end)`: unmap its
    /// pages and return its data frames. `None` when no area has these bounds.
    #[verifier::spinoff_prover]
    pub fn remove_framed_area(&mut self, mem: &mut PhysMem, start: VirtPageNum, end: VirtPageNum) -> (r:
        Option<()>)
        requires
            old(self).wf(old(mem)),
        ensures
            final(self).wf(final(mem)),
            final(self).root() == old(self).root(),
            final(mem).frame_count() == old(mem).frame_count(),
            r is None <==> forall|a: int|
                0 <= a < old(self).areas().len() ==> !((#[trigger] old(self).areas()[a]).start()
                    == start.0 && old(self).areas()[a].end() == end.0),
            r is None ==> final(self).areas() == old(self).areas() && final(self).mapped(final(mem))
                == old(self).mapped(old(mem)) && final(mem).free_count() == old(mem).free_count(),
            r is Some ==> exists|i: int|
                {
                    &&& 0 <= i < old(self).areas().len()
                    &&& old(self).areas()[i].start() == start.0
                    &&& old(self).areas()[i].end() == end.0
                    &&& forall|a: int|
                        0 <= a < i ==> !((#[trigger] old(self).areas()[a]).start() == start.0
                            && old(self).areas()[a].end() == end.0)
                    &&& final(self).areas() == old(self).areas().remove(i)
                    &&& final(mem).free_count() == old(mem).free_count() + (end.0 - start.0)
                    &&& forall|q: int|
                        #[trigger] final(mem).is_allocated(q) == (old(mem).is_allocated(q)
                            && !exists|k: int|
                            0 <= k < old(self).areas()[i].frames().len()
                                && old(self).areas()[i].frames()[k].0 == q)
                },
            r is Some ==> forall|p: int|
                #[trigger] final(self).mapped(final(mem)).contains_key(p) == (old(self).mapped(
                    old(mem),
                ).contains_key(p) && !(start.0 <= p < end.0)),
            forall|p: int|
                #[trigger] final(self).mapped(final(mem)).contains_key(p) ==> final(self).mapped(
                    final(mem),
                )[p] == old(self).mapped(old(mem))[p],
            forall|q: int|
                0 <= q < old(mem).frame_count() && !old(self).table_frames().contains(q) ==> #[trigger] same_frame(
                    old(mem).ptes(),
                    final(mem).ptes(),
                    q,
                ),
    {
        let mut i: usize = 0;
        let mut found = false;
        while i < self.areas.len() && !found
            invariant
                i <= self.areas@.len(),
                found ==> i < self.areas@.len() && self.areas()[i as int].start() == start.0
                    && self.areas()[i as int].end() == end.0,
                forall|a: int|
                    0 <= a < i ==> !((#[trigger] self.areas()[a]).start() == start.0 && self.areas()[a].end()
                        == end.0),
            decreases self.areas@.len() - i, if found { 0int } else { 1int },
        {
            if self.areas[i].vpn_start.0 == start.0 && self.areas[i].vpn_end.0 == end.0 {
                found = true;
            } else {
                i = i + 1;
            }
        }
        if !found {
            return None;
        }
        let ghost old_areas = self.areas@;
        let ghost mapped0 = self.mapped(mem);
        let ghost mem0 = *mem;
        let area = self.areas.remove(i);
        let s = area.vpn_start.0;
        let e = area.vpn_end.0;
        proof {
            assert(old_areas[i as int] == area);
            assert forall|p: int| s <= p < e implies #[trigger] mapped0.contains_key(p) by {
                old(self).lemma_area_page(old(mem), i as int, p);
            }
            assert forall|k: int| 0 <= k < e - s implies #[trigger] mem0.is_allocated(area.data_frames@[k].0 as int)
                && !self.page_table.owned().contains(area.data_frames@[k].0 as int) by {
                assert(area.frames()[k] == old_areas[i as int].frames()[k]);
            }
            assert(distinct_frames(area.data_frames@, 0, e - s)) by {
                assert forall|k: int, l: int| 0 <= k < e - s && 0 <= l < e - s && k != l implies #[trigger] area.data_frames@[k]
                    != #[trigger] area.data_frames@[l] by {
                    assert(old_areas[i as int].frames()[k] != old_areas[i as int].frames()[l]);
                }
            }
        }
        release_range(&mut self.page_table, mem, s, e, &area.data_frames, s);
        proof {
            self.page_table.lemma_mem_wf(mem);
            let areas = self.areas@;
            assert forall|a: int| 0 <= a < areas.len() implies #[trigger] areas[a] == old_areas[if a < i {
                a
            } else {
                a + 1
            }] by {}
            assert forall|a: int, p: int|
                #![trigger self.areas@[a].frame_of(p)]
                0 <= a < self.areas@.len() && self.areas@[a].start() <= p < self.areas@[a].end() implies maps_to(
                self.mapped(mem),
                p,
                area_entry(self.areas@[a].frame_of(p), self.areas@[a].perm()),
            ) by {
                let o = if a < i { a } else { a + 1 };
                assert(self.areas@[a] == old_areas[o]);
                old(self).lemma_area_page(old(mem), o, p);
                assert(ranges_disjoint(old_areas[o].start(), old_areas[o].end(), s as int, e as int));
            }
            assert forall|a: int, k: int|
                0 <= a < areas.len() && areas[a].framed() && 0 <= k < areas[a].frames().len() implies {
                let f = (#[trigger] areas[a].frames()[k]).0 as int;
                &&& mem.is_allocated(f)
                &&& !self.page_table.owned().contains(f)
            } by {
                let o = if a < i { a } else { a + 1 };
                assert(areas[a] == old_areas[o]);
                let f = areas[a].frames()[k].0 as int;
                assert(mem0.is_allocated(f));
                if exists|kk: int| 0 <= kk < e - s && area.data_frames@[kk].0 == f {
                    let kk = choose|kk: int| 0 <= kk < e - s && area.data_frames@[kk].0 == f;
                    assert(old_areas[i as int].frames()[kk] == old_areas[o].frames()[k]);
                }
            }
            assert forall|a: int, b: int|
                0 <= a < areas.len() && 0 <= b < areas.len() && a != b implies ranges_disjoint(
                #[trigger] areas[a].start(),
                areas[a].end(),
                #[trigger] areas[b].start(),
                areas[b].end(),
            ) by {
                let oa = if a < i { a } else { a + 1 };
                let ob = if b < i { b } else { b + 1 };
                assert(areas[a] == old_areas[oa] && areas[b] == old_areas[ob]);
            }
            assert forall|a: int, k: int, b: int, l: int|
                0 <= a < areas.len() && areas[a].framed() && 0 <= k < areas[a].frames().len() && 0
                    <= b < areas.len() && areas[b].framed() && 0 <= l < areas[b].frames().len() && (a
                    != b || k != l) implies (#[trigger] areas[a].frames()[k]) != (
            #[trigger] areas[b].frames()[l]) by {
                let oa = if a < i { a } else { a + 1 };
                let ob = if b < i { b } else { b + 1 };
                assert(areas[a] == old_areas[oa] && areas[b] == old_areas[ob]);
            }
            assert forall|q: int|
                #[trigger] mem.is_allocated(q) == (mem0.is_allocated(q) && !exists|k: int|
                    0 <= k < old_areas[i as int].frames().len() && old_areas[i as int].frames()[k].0 == q) by {
                if exists|k: int| 0 <= k < e - s && area.data_frames@[k].0 == q {
                    let k = choose|k: int| 0 <= k < e - s && area.data_frames@[k].0 == q;
                    assert(old_areas[i as int].frames()[k].0 == q);
                }
                if exists|k: int|
                    0 <= k < old_areas[i as int].frames().len() && old_areas[i as int].frames()[k].0 == q {
                    let k = choose|k: int|
                        0 <= k < old_areas[i as int].frames().len() && old_areas[i as int].frames()[k].0 == q;
                    assert(area.data_frames@[k].0 == q);
                }
            }
        }
        Some(())
    }
}


/// Area `i` is the first of `areas` that starts at page `s`.
pub open spec fn first_area_at(areas: Seq<MapArea>, i: int, s: int) -> bool {
    &&& 0 <= i < areas.len()
    &&& areas[i].start() == s
    &&& forall|a: int| 0 <= a < i ==> (#[trigger] areas[a]).start() != s
}

impl MemorySet {
    /// Cut the first area that starts at page `start.floor()` down to end at
    /// page `new_end.ceil()`: the pages beyond are unmapped and their frames
    /// returned, the others keep their frames and permissions. `false`, with
    /// nothing changed, when no area starts there.
    #[verifier::spinoff_prover]
    pub fn shrink_to(&mut self, mem: &mut PhysMem, start: VirtAddr, new_end: VirtAddr) -> (r: bool)
        requires
            old(self).wf(old(mem)),
            forall|i: int|
                first_area_at(old(self).areas(), i, floor_page(start)) ==> old(self).areas()[i].start()
                    <= ceil_page(new_end) <= old(self).areas()[i].end(),
        ensures
            final(self).wf(final(mem)),
            final(self).root() == old(self).root(),
            final(mem).frame_count() == old(mem).frame_count(),
            r == exists|i: int| first_area_at(old(self).areas(), i, floor_page(start)),
            !r ==> final(self).areas() == old(self).areas() && final(self).mapped(final(mem))
                == old(self).mapped(old(mem)) && final(mem).free_count() == old(mem).free_count(),
            r ==> exists|i: int|
                #![trigger first_area_at(old(self).areas(), i, floor_page(start))]
                {
                    let old_area = old(self).areas()[i];
                    let area = final(self).areas()[i];
                    let n = ceil_page(new_end);
                    &&& first_area_at(old(self).areas(), i, floor_page(start))
                    &&& final(self).areas().len() == old(self).areas().len()
                    &&& forall|a: int|
                        0 <= a < old(self).areas().len() && a != i ==> #[trigger] final(self).areas()[a]
                            == old(self).areas()[a]
                    &&& area.start() == old_area.start()
                    &&& area.end() == n
                    &&& area.perm() == old_area.perm()
                    &&& area.frames() == old_area.frames().take(n - old_area.start())
                    &&& final(mem).free_count() == old(mem).free_count() + (old_area.end() - n)
                    &&& forall|q: int|
                        #[trigger] final(mem).is_allocated(q) == (old(mem).is_allocated(q)
                            && !exists|k: int|
                            n - old_area.start() <= k < old_area.end() - old_area.start()
                                && old_area.frames()[k].0 == q)
                    &&& forall|p: int|
                        #[trigger] final(self).mapped(final(mem)).contains_key(p) == (old(self).mapped(
                            old(mem),
                        ).contains_key(p) && !(n <= p < old_area.end()))
                },
            forall|p: int|
                #[trigger] final(self).mapped(final(mem)).contains_key(p) ==> final(self).mapped(
                    final(mem),
                )[p] == old(self).mapped(old(mem))[p],
            forall|q: int|
                0 <= q < old(mem).frame_count() && !old(self).table_frames().contains(q) ==> #[trigger] same_frame(
                    old(mem).ptes(),
                    final(mem).ptes(),
                    q,
                ),
    {
        let s = start.floor().0;
        let i = match self.find_area(s) {
            Some(i) => i,
            None => {
                proof {
                    assert forall|i: int| !first_area_at(old(self).areas(), i, floor_page(start)) by {
                        if 0 <= i < self.areas@.len() {
                            assert(self.areas()[i].start() != s);
                        }
                    }
                }
                return false;
            },
        };
        proof {
            assert(first_area_at(self.areas(), i as int, floor_page(start)));
        }
        let n = new_end.ceil().0;
        let base = self.areas[i].vpn_start.0;
        let e = self.areas[i].vpn_end.0;
        let ghost old_areas = self.areas@;
        let ghost mapped0 = self.mapped(mem);
        let ghost mem0 = *mem;
        let ghost old_area = old_areas[i as int];
        proof {
            assert forall|p: int| n <= p < e implies #[trigger] mapped0.contains_key(p) by {
                old(self).lemma_area_page(old(mem), i as int, p);
            }
            assert forall|k: int| n - base <= k < e - base implies #[trigger] mem0.is_allocated(old_area.data_frames@[k].0 as int)
                && !self.page_table.owned().contains(old_area.data_frames@[k].0 as int) by {
                assert(old_area.frames()[k] == old_areas[i as int].frames()[k]);
            }
            assert(distinct_frames(old_area.data_frames@, n - base, e - base)) by {
                assert forall|k: int, l: int| n - base <= k < e - base && n - base <= l < e - base && k != l implies #[trigger] old_area.data_frames@[k]
                    != #[trigger] old_area.data_frames@[l] by {
                    assert(old_areas[i as int].frames()[k] != old_areas[i as int].frames()[l]);
                }
            }
        }
        release_range(&mut self.page_table, mem, n, e, &self.areas[i].data_frames, base);
        let mut area = self.areas.remove(i);
        area.data_frames.truncate((n - base) as usize);
        area.vpn_end = VirtPageNum(n);
        self.areas.insert(i, area);
        proof {
            self.page_table.lemma_mem_wf(mem);
            let areas = self.areas@;
            assert(areas =~= old_areas.update(i as int, area));
            assert(area.frames() =~= old_area.frames().take(n - base));
            assert forall|a: int, p: int|
                #![trigger self.areas@[a].frame_of(p)]
                0 <= a < self.areas@.len() && self.areas@[a].start() <= p < self.areas@[a].end() implies maps_to(
                self.mapped(mem),
                p,
                area_entry(self.areas@[a].frame_of(p), self.areas@[a].perm()),
            ) by {
                old(self).lemma_area_page(old(mem), a, p);
                if a != i {
                    assert(self.areas@[a] == old_areas[a]);
                    assert(ranges_disjoint(old_areas[a].start(), old_areas[a].end(), base as int, e as int));
                    assert(!(n <= p < e));
                } else {
                    assert(self.areas@[a] == area);
                    assert(p < n);
                    assert(area.frame_of(p) == old_area.frame_of(p));
                }
                assert(mapped0.contains_key(p));
                assert(self.mapped(mem).contains_key(p));
                assert(self.mapped(mem)[p] == mapped0[p]);
            }
            assert forall|a: int, k: int|
                0 <= a < areas.len() && areas[a].framed() && 0 <= k < areas[a].frames().len() implies {
                let f = (#[trigger] areas[a].frames()[k]).0 as int;
                &&& mem.is_allocated(f)
                &&& !self.page_table.owned().contains(f)
            } by {
                let f = areas[a].frames()[k].0 as int;
                assert(old_areas[a].frames()[k] == areas[a].frames()[k]);
                assert(mem0.is_allocated(f));
                if exists|kk: int| n - base <= kk < e - base && old_area.data_frames@[kk].0 == f {
                    let kk = choose|kk: int| n - base <= kk < e - base && old_area.data_frames@[kk].0 == f;
                    assert(old_areas[i as int].frames()[kk] == old_areas[a].frames()[k]);
                }
            }
            assert forall|a: int, b: int|
                0 <= a < areas.len() && 0 <= b < areas.len() && a != b implies ranges_disjoint(
                #[trigger] areas[a].start(),
                areas[a].end(),
                #[trigger] areas[b].start(),
                areas[b].end(),
            ) by {
                assert(ranges_disjoint(old_areas[a].start(), old_areas[a].end(), old_areas[b].start(), old_areas[b].end()));
            }
            assert forall|a: int, k: int, b: int, l: int|
                0 <= a < areas.len() && areas[a].framed() && 0 <= k < areas[a].frames().len() && 0
                    <= b < areas.len() && areas[b].framed() && 0 <= l < areas[b].frames().len() && (a
                    != b || k != l) implies (#[trigger] areas[a].frames()[k]) != (
            #[trigger] areas[b].frames()[l]) by {
                assert(old_areas[a].frames()[k] == areas[a].frames()[k]);
                assert(old_areas[b].frames()[l] == areas[b].frames()[l]);
            }
            assert forall|a: int| 0 <= a < old_areas.len() && a != i implies #[trigger] areas[a] == old_areas[a] by {}
        }
        true
    }
}

impl MemorySet {
    /// Extend the first area that starts at page `start.floor()` to end at
    /// page `new_end.ceil()`: each added page is mapped to a new zeroed frame
    /// with the area's permissions, and the pages it had keep their frames.
    /// `false` when no area starts there or frames run out; the areas and
    /// mappings are then unchanged.
    #[verifier::spinoff_prover]
    pub fn append_to(&mut self, mem: &mut PhysMem, start: VirtAddr, new_end: VirtAddr) -> (r: bool)
        requires
            old(self).wf(old(mem)),
            ceil_page(new_end) <= VPN_LIMIT,
            forall|i: int|
                first_area_at(old(self).areas(), i, floor_page(start)) ==> old(self).areas()[i].end()
                    <= ceil_page(new_end) && forall|p: int|
                    old(self).areas()[i].end() <= p < ceil_page(new_end) ==> !#[trigger] old(
                        self,
                    ).mapped(old(mem)).contains_key(p),
        ensures
            final(self).wf(final(mem)),
            final(self).root() == old(self).root(),
            final(mem).frame_count() == old(mem).frame_count(),
            forall|q: int| #[trigger] old(mem).is_allocated(q) ==> final(mem).is_allocated(q),
            r ==> exists|i: int| first_area_at(old(self).areas(), i, floor_page(start)),
            forall|i: int|
                first_area_at(old(self).areas(), i, floor_page(start)) && old(mem).free_count() >= 3
                    * (ceil_page(new_end) - old(self).areas()[i].end()) ==> r,
            forall|i: int|
                first_area_at(old(self).areas(), i, floor_page(start)) && r ==> old(mem).free_count()
                    >= ceil_page(new_end) - old(self).areas()[i].end(),
            !r ==> final(self).areas() == old(self).areas() && final(self).mapped(final(mem))
                == old(self).mapped(old(mem)),
            r ==> exists|i: int|
                #![trigger first_area_at(old(self).areas(), i, floor_page(start))]
                {
                    let old_area = old(self).areas()[i];
                    let area = final(self).areas()[i];
                    let n = ceil_page(new_end);
                    &&& first_area_at(old(self).areas(), i, floor_page(start))
                    &&& final(self).areas().len() == old(self).areas().len()
                    &&& forall|a: int|
                        0 <= a < old(self).areas().len() && a != i ==> #[trigger] final(self).areas()[a]
                            == old(self).areas()[a]
                    &&& area.start() == old_area.start()
                    &&& area.end() == n
                    &&& area.perm() == old_area.perm()
                    &&& area.frames().len() == n - old_area.start()
                    &&& area.frames().take(old_area.end() - old_area.start()) == old_area.frames()
                    &&& forall|p: int|
                        old_area.end() <= p < n ==> !old(mem).is_allocated(#[trigger] area.frame_of(p))
                    &&& forall|p: int|
                        old_area.end() <= p < n ==> frame_zeroed(final(mem).ptes(), #[trigger] area.frame_of(p))
                    &&& forall|p: int|
                        #[trigger] final(self).mapped(final(mem)).contains_key(p) == (old(self).mapped(
                            old(mem),
                        ).contains_key(p) || old_area.end() <= p < n)
                    &&& forall|p: int|
                        old_area.end() <= p < n ==> #[trigger] final(self).mapped(final(mem))[p]
                            == area_entry(area.frame_of(p), area.perm())
                },
            forall|p: int|
                #[trigger] old(self).mapped(old(mem)).contains_key(p) ==> final(self).mapped(
                    final(mem),
                )[p] == old(self).mapped(old(mem))[p],
            forall|q: int|
                0 <= q < old(mem).frame_count() && old(mem).is_allocated(q) && !final(self).table_frames().contains(q)
                    ==> #[trigger] same_frame(old(mem).ptes(), final(mem).ptes(), q),
    {
        let s = start.floor().0;
        let i = match self.find_area(s) {
            Some(i) => i,
            None => {
                return false;
            },
        };
        proof {
            assert(first_area_at(self.areas(), i as int, floor_page(start)));
        }
        let n = new_end.ceil().0;
        let base = self.areas[i].vpn_start.0;
        let e = self.areas[i].vpn_end.0;
        let perm = self.areas[i].map_perm.bits();
        let ghost old_areas = self.areas@;
        let ghost mapped0 = self.mapped(mem);
        let ghost mem0 = *mem;
        let ghost owned0 = self.page_table.owned();
        let ghost old_area = old_areas[i as int];
        let mut frames = match map_fresh_range(&mut self.page_table, mem, e, n, perm) {
            Some(f) => f,
            None => {
                proof {
                    self.page_table.lemma_mem_wf(mem);
                    let areas = self.areas@;
                    assert forall|a: int, p: int|
                        #![trigger self.areas@[a].frame_of(p)]
                        0 <= a < self.areas@.len() && self.areas@[a].start() <= p < self.areas@[a].end() implies maps_to(
                        self.mapped(mem),
                        p,
                        area_entry(self.areas@[a].frame_of(p), self.areas@[a].perm()),
                    ) by {
                        old(self).lemma_area_page(old(mem), a, p);
                    }
                    assert forall|a: int, k: int|
                        0 <= a < areas.len() && areas[a].framed() && 0 <= k < areas[a].frames().len() implies {
                        let f = (#[trigger] areas[a].frames()[k]).0 as int;
                        &&& mem.is_allocated(f)
                        &&& !self.page_table.owned().contains(f)
                    } by {
                        let f = areas[a].frames()[k].0 as int;
                        assert(mem0.is_allocated(f));
                        assert(!owned0.contains(f));
                    }
                }
                return false;
            },
        };
        let ghost fresh = frames@;
        let mut area = self.areas.remove(i);
        area.data_frames.append(&mut frames);
        area.vpn_end = VirtPageNum(n);
        self.areas.insert(i, area);
        proof {
            self.page_table.lemma_mem_wf(mem);
            let areas = self.areas@;
            assert(areas =~= old_areas.update(i as int, area));
            assert(area.frames() =~= old_area.frames() + fresh);
            assert(area.frames().take(e - base) =~= old_area.frames());
            assert forall|p: int| e <= p < n implies #[trigger] area.frame_of(p) == fresh[p - e].0 as int by {}
            assert forall|a: int, p: int|
                #![trigger self.areas@[a].frame_of(p)]
                0 <= a < self.areas@.len() && self.areas@[a].start() <= p < self.areas@[a].end() implies maps_to(
                self.mapped(mem),
                p,
                area_entry(self.areas@[a].frame_of(p), self.areas@[a].perm()),
            ) by {
                if a != i {
                    old(self).lemma_area_page(old(mem), a, p);
                } else if p < e {
                    old(self).lemma_area_page(old(mem), a, p);
                    assert(area.frame_of(p) == old_area.frame_of(p));
                }
            }
            assert forall|a: int, k: int|
                0 <= a < areas.len() && areas[a].framed() && 0 <= k < areas[a].frames().len() implies {
                let f = (#[trigger] areas[a].frames()[k]).0 as int;
                &&& mem.is_allocated(f)
                &&& !self.page_table.owned().contains(f)
            } by {
                if a != i || k < e - base {
                    assert(old_areas[a].frames()[k] == areas[a].frames()[k]);
                    let f = areas[a].frames()[k].0 as int;
                    assert(mem0.is_allocated(f));
                    assert(!owned0.contains(f));
                } else {
                    assert(areas[a].frames()[k] == fresh[k - (e - base)]);
                }
            }
            assert forall|a: int, b: int|
                0 <= a < areas.len() && 0 <= b < areas.len() && a != b implies ranges_disjoint(
                #[trigger] areas[a].start(),
                areas[a].end(),
                #[trigger] areas[b].start(),
                areas[b].end(),
            ) by {
                assert(ranges_disjoint(old_areas[a].start(), old_areas[a].end(), old_areas[b].start(), old_areas[b].end()));
                if a == i || b == i {
                    let o = if a == i { b } else { a };
                    let os = old_areas[o].start();
                    let oe = old_areas[o].end();
                    if !(n <= os || oe <= base || base == n || os == oe) {
                        let p = if os < e { e as int } else { os };
                        if p < oe && p < n {
                            old(self).lemma_area_page(old(mem), o, p);
                            assert(mapped0.contains_key(p));
                        }
                    }
                }
            }
            assert forall|a: int, k: int, b: int, l: int|
                0 <= a < areas.len() && areas[a].framed() && 0 <= k < areas[a].frames().len() && 0
                    <= b < areas.len() && areas[b].framed() && 0 <= l < areas[b].frames().len() && (a
                    != b || k != l) implies (#[trigger] areas[a].frames()[k]) != (
            #[trigger] areas[b].frames()[l]) by {
                let ka = a == i && k >= e - base;
                let lb = b == i && l >= e - base;
                if !ka {
                    assert(old_areas[a].frames()[k] == areas[a].frames()[k]);
                    assert(mem0.is_allocated(areas[a].frames()[k].0 as int));
                } else {
                    assert(areas[a].frames()[k] == fresh[k - (e - base)]);
                }
                if !lb {
                    assert(old_areas[b].frames()[l] == areas[b].frames()[l]);
                    assert(mem0.is_allocated(areas[b].frames()[l].0 as int));
                } else {
                    assert(areas[b].frames()[l] == fresh[l - (e - base)]);
                }
            }
            assert forall|a: int| 0 <= a < old_areas.len() && a != i implies #[trigger] areas[a] == old_areas[a] by {}
        }
        true
    }
}

/// Page `p` lies in one of `areas[lo..]`.
pub open spec fn in_areas(areas: Seq<MapArea>, lo: int, p: int) -> bool {
    exists|a: int| lo <= a < areas.len() && (#[trigger] areas[a]).start() <= p < areas[a].end()
}

/// Frame `q` is a data frame of one of `areas[lo..]`.
pub open spec fn frame_in_areas(areas: Seq<MapArea>, lo: int, q: int) -> bool {
    exists|a: int, k: int|
        lo <= a < areas.len() && 0 <= k < areas[a].frames().len() && (#[trigger] areas[a].frames()[k]).0
            == q
}

impl MemorySet {
    /// Remove every area: unmap its pages and return its data frames. Pages
    /// mapped outside the areas stay.
    #[verifier::spinoff_prover]
    pub fn recycle_data_pages(&mut self, mem: &mut PhysMem)
        requires
            old(self).wf(old(mem)),
        ensures
            final(self).wf(final(mem)),
            final(self).root() == old(self).root(),
            final(self).table_frames() == old(self).table_frames(),
            final(mem).frame_count() == old(mem).frame_count(),
            final(self).areas().len() == 0,
            forall|p: int|
                #[trigger] final(self).mapped(final(mem)).contains_key(p) == (old(self).mapped(
                    old(mem),
                ).contains_key(p) && !in_areas(old(self).areas(), 0, p)),
            forall|p: int|
                #[trigger] final(self).mapped(final(mem)).contains_key(p) ==> final(self).mapped(
                    final(mem),
                )[p] == old(self).mapped(old(mem))[p],
            forall|q: int|
                #[trigger] final(mem).is_allocated(q) == (old(mem).is_allocated(q)
                    && !frame_in_areas(old(self).areas(), 0, q)),
            forall|q: int|
                0 <= q < old(mem).frame_count() && !old(self).table_frames().contains(q) ==> #[trigger] same_frame(
                    old(mem).ptes(),
                    final(mem).ptes(),
                    q,
                ),
    {
        let ghost old_areas = self.areas@;
        let ghost mapped0 = self.mapped(mem);
        let ghost mem0 = *mem;
        while self.areas.len() > 0
            invariant
                forall|q: int|
                    0 <= q < mem0.frame_count() && !old(self).table_frames().contains(q) ==> #[trigger] same_frame(
                        mem0.ptes(),
                        mem.ptes(),
                        q,
                    ),
                self.wf(mem),
                self.root() == old(self).root(),
                self.table_frames() == old(self).table_frames(),
                mem.frame_count() == mem0.frame_count(),
                old_areas == old(self).areas(),
                mapped0 == old(self).mapped(old(mem)),
                mem0 == *old(mem),
                self.areas@ == old_areas.take(self.areas@.len() as int),
                self.areas@.len() <= old_areas.len(),
                forall|p: int|
                    #[trigger] self.mapped(mem).contains_key(p) == (mapped0.contains_key(p) && !in_areas(
                        old_areas,
                        self.areas@.len() as int,
                        p,
                    )),
                forall|p: int| #[trigger] self.mapped(mem).contains_key(p) ==> self.mapped(mem)[p] == mapped0[p],
                forall|q: int|
                    #[trigger] mem.is_allocated(q) == (mem0.is_allocated(q) && !frame_in_areas(
                        old_areas,
                        self.areas@.len() as int,
                        q,
                    )),
            decreases self.areas@.len(),
        {
            let ghost cur = self.areas@;
            let ghost mapped1 = self.mapped(mem);
            let ghost mem1 = *mem;
            let ghost n = cur.len() - 1;
            let ghost pre = *self;
            let area = match self.areas.pop() {
                Some(a) => a,
                None => {
                    return;
                },
            };
            let s = area.vpn_start.0;
            let e = area.vpn_end.0;
            proof {
                assert(cur[n] == area);
                assert(old_areas[n] == area);
                assert forall|p: int| s <= p < e implies #[trigger] mapped1.contains_key(p) by {
                    pre.lemma_area_page(&mem1, n, p);
                }
                assert forall|k: int| 0 <= k < e - s implies #[trigger] mem1.is_allocated(area.data_frames@[k].0 as int)
                    && !self.page_table.owned().contains(area.data_frames@[k].0 as int) by {
                    assert(area.frames()[k] == cur[n].frames()[k]);
                }
                assert(distinct_frames(area.data_frames@, 0, e - s)) by {
                    assert forall|k: int, l: int| 0 <= k < e - s && 0 <= l < e - s && k != l implies #[trigger] area.data_frames@[k]
                        != #[trigger] area.data_frames@[l] by {
                        assert(cur[n].frames()[k] != cur[n].frames()[l]);
                    }
                }
            }
            let ghost m_pre = mem.ptes();
            release_range(&mut self.page_table, mem, s, e, &area.data_frames, s);
            proof {
                assert forall|q: int|
                    0 <= q < mem0.frame_count() && !old(self).table_frames().contains(q) implies #[trigger] same_frame(
                        mem0.ptes(),
                        mem.ptes(),
                        q,
                    ) by {
                    assert(same_frame(mem0.ptes(), m_pre, q));
                    assert(same_frame(m_pre, mem.ptes(), q));
                    assert forall|jj: int| 0 <= jj < 512 implies #[trigger] pte_at(mem.ptes(), q, jj) == pte_at(mem0.ptes(), q, jj) by {
                        assert(pte_at(mem.ptes(), q, jj) == pte_at(m_pre, q, jj));
                    }
                }
                self.page_table.lemma_mem_wf(mem);
                let areas = self.areas@;
                assert(areas =~= old_areas.take(n));
                assert forall|a: int| 0 <= a < areas.len() implies #[trigger] areas[a] == cur[a] by {}
                assert forall|a: int, p: int|
                    #![trigger self.areas@[a].frame_of(p)]
                    0 <= a < self.areas@.len() && self.areas@[a].start() <= p < self.areas@[a].end() implies maps_to(
                    self.mapped(mem),
                    p,
                    area_entry(self.areas@[a].frame_of(p), self.areas@[a].perm()),
                ) by {
                    assert(self.areas@[a] == cur[a]);
                    pre.lemma_area_page(&mem1, a, p);
                    assert(ranges_disjoint(cur[a].start(), cur[a].end(), s as int, e as int));
                }
                assert forall|a: int, k: int|
                    0 <= a < areas.len() && areas[a].framed() && 0 <= k < areas[a].frames().len() implies {
                    let f = (#[trigger] areas[a].frames()[k]).0 as int;
                    &&& mem.is_allocated(f)
                    &&& !self.page_table.owned().contains(f)
                } by {
                    assert(areas[a] == cur[a]);
                    let f = areas[a].frames()[k].0 as int;
                    assert(mem1.is_allocated(f));
                    if exists|kk: int| 0 <= kk < e - s && area.data_frames@[kk].0 == f {
                        let kk = choose|kk: int| 0 <= kk < e - s && area.data_frames@[kk].0 == f;
                        assert(cur[n].frames()[kk] == cur[a].frames()[k]);
                    }
                }
                assert forall|a: int, b: int|
                    0 <= a < areas.len() && 0 <= b < areas.len() && a != b implies ranges_disjoint(
                    #[trigger] areas[a].start(),
                    areas[a].end(),
                    #[trigger] areas[b].start(),
                    areas[b].end(),
                ) by {
                    assert(areas[a] == cur[a] && areas[b] == cur[b]);
                }
                assert forall|a: int, k: int, b: int, l: int|
                    0 <= a < areas.len() && areas[a].framed() && 0 <= k < areas[a].frames().len() && 0
                        <= b < areas.len() && areas[b].framed() && 0 <= l < areas[b].frames().len() && (a
                        != b || k != l) implies (#[trigger] areas[a].frames()[k]) != (
                #[trigger] areas[b].frames()[l]) by {
                    assert(areas[a] == cur[a] && areas[b] == cur[b]);
                }
                assert forall|p: int|
                    #[trigger] self.mapped(mem).contains_key(p) == (mapped0.contains_key(p) && !in_areas(
                        old_areas,
                        n,
                        p,
                    )) by {
                    if in_areas(old_areas, n, p) && !(s <= p < e) {
                        let a = choose|a: int| n <= a < old_areas.len() && (#[trigger] old_areas[a]).start() <= p < old_areas[a].end();
                        assert(a != n);
                        assert(in_areas(old_areas, n + 1, p));
                    }
                    if in_areas(old_areas, n + 1, p) {
                        let a = choose|a: int| n + 1 <= a < old_areas.len() && (#[trigger] old_areas[a]).start() <= p < old_areas[a].end();
                        assert(in_areas(old_areas, n, p));
                    }
                    if s <= p < e {
                        assert(old_areas[n].start() <= p < old_areas[n].end());
                        assert(in_areas(old_areas, n, p));
                    }
                }
                assert forall|q: int|
                    #[trigger] mem.is_allocated(q) == (mem0.is_allocated(q) && !frame_in_areas(
                        old_areas,
                        n,
                        q,
                    )) by {
                    if frame_in_areas(old_areas, n, q) {
                        let (a, k) = choose|a: int, k: int|
                            n <= a < old_areas.len() && 0 <= k < old_areas[a].frames().len() && (#[trigger] old_areas[a].frames()[k]).0 == q;
                        if a == n {
                            assert(area.data_frames@[k].0 == q);
                        } else {
                            assert(frame_in_areas(old_areas, n + 1, q));
                        }
                    }
                    if frame_in_areas(old_areas, n + 1, q) {
                        let (a, k) = choose|a: int, k: int|
                            n + 1 <= a < old_areas.len() && 0 <= k < old_areas[a].frames().len() && (#[trigger] old_areas[a].frames()[k]).0 == q;
                        assert(frame_in_areas(old_areas, n, q));
                    }
                    if exists|k: int| 0 <= k < e - s && area.data_frames@[k].0 == q {
                        let k = choose|k: int| 0 <= k < e - s && area.data_frames@[k].0 == q;
                        assert(old_areas[n].frames()[k].0 == q);
                        assert(frame_in_areas(old_areas, n, q));
                    }
                }
            }
        }
        proof {
            assert(old_areas.take(old_areas.len() as int) =~= old_areas);
        }
    }
}

impl MemorySet {
    /// Map `[start_va.floor(), end_va.ceil())` anonymously with permissions
    /// `permission`, as `insert_framed_area` does. `None`, with nothing
    /// changed, when a page of the range is already mapped.
    pub fn mmap(&mut self, mem: &mut PhysMem, start_va: VirtAddr, end_va: VirtAddr, permission: MapPermission) -> (r: Option<()>)
        requires
            old(self).wf(old(mem)),
            start_va.0 <= end_va.0 <= VA_LIMIT,
        ensures
            final(self).wf(final(mem)),
            final(self).root() == old(self).root(),
            final(mem).frame_count() == old(mem).frame_count(),
            forall|q: int| #[trigger] old(mem).is_allocated(q) ==> final(mem).is_allocated(q),
            (exists|p: int|
                floor_page(start_va) <= p < ceil_page(end_va) && #[trigger] old(self).mapped(
                    old(mem),
                ).contains_key(p)) ==> r is None && *final(self) == *old(self) && *final(mem)
                == *old(mem),
            (forall|p: int|
                floor_page(start_va) <= p < ceil_page(end_va) ==> !#[trigger] old(self).mapped(
                    old(mem),
                ).contains_key(p)) && old(mem).free_count() >= 3 * (ceil_page(end_va) - floor_page(
                start_va,
            )) ==> r is Some,
            r is Some ==> old(mem).free_count() >= ceil_page(end_va) - floor_page(start_va),
            r is None ==> final(self).mapped(final(mem)) == old(self).mapped(old(mem))
                && final(self).areas() == old(self).areas(),
            r is Some ==> area_appended(
                *old(self),
                *old(mem),
                *final(self),
                *final(mem),
                floor_page(start_va),
                ceil_page(end_va),
                permission.value(),
            ),
    {
        proof {
            lemma_pages_in_range(start_va);
            lemma_pages_in_range(end_va);
        }
        if self.has_mapped_pages(mem, start_va.floor(), end_va.ceil()) {
            return None;
        }
        self.insert_framed_area(mem, start_va, end_va, permission)
    }

    /// Remove the area whose pages are exactly `[start_va.floor(),
    /// end_va.ceil())`, as `remove_framed_area` does.
    pub fn munmap(&mut self, mem: &mut PhysMem, start_va: VirtAddr, end_va: VirtAddr) -> (r: Option<()>)
        requires
            old(self).wf(old(mem)),
        ensures
            final(self).wf(final(mem)),
            final(self).root() == old(self).root(),
            final(mem).frame_count() == old(mem).frame_count(),
            r is None <==> forall|a: int|
                0 <= a < old(self).areas().len() ==> !((#[trigger] old(self).areas()[a]).start()
                    == floor_page(start_va) && old(self).areas()[a].end() == ceil_page(end_va)),
            r is None ==> final(self).areas() == old(self).areas() && final(self).mapped(final(mem))
                == old(self).mapped(old(mem)) && final(mem).free_count() == old(mem).free_count(),
            r is Some ==> forall|p: int|
                #[trigger] final(self).mapped(final(mem)).contains_key(p) == (old(self).mapped(
                    old(mem),
                ).contains_key(p) && !(floor_page(start_va) <= p < ceil_page(end_va))),
            r is Some ==> exists|i: int|
                {
                    &&& 0 <= i < old(self).areas().len()
                    &&& old(self).areas()[i].start() == floor_page(start_va)
                    &&& old(self).areas()[i].end() == ceil_page(end_va)
                    &&& final(self).areas() == old(self).areas().remove(i)
                    &&& final(mem).free_count() == old(mem).free_count() + (ceil_page(end_va)
                        - floor_page(start_va))
                    &&& forall|q: int|
                        #[trigger] final(mem).is_allocated(q) == (old(mem).is_allocated(q)
                            && !exists|k: int|
                            0 <= k < old(self).areas()[i].frames().len()
                                && old(self).areas()[i].frames()[k].0 == q)
                },
            forall|p: int|
                #[trigger] final(self).mapped(final(mem)).contains_key(p) ==> final(self).mapped(
                    final(mem),
                )[p] == old(self).mapped(old(mem))[p],
            forall|q: int|
                0 <= q < old(mem).frame_count() && !old(self).table_frames().contains(q) ==> #[trigger] same_frame(
                    old(mem).ptes(),
                    final(mem).ptes(),
                    q,
                ),
    {
        let s = start_va.floor();
        let e = end_va.ceil();
        self.remove_framed_area(mem, s, e)
    }
}

impl MemorySet {
    /// Every walk of the page table stays within memory, and the root is a
    /// frame of memory.
    pub proof fn lemma_walks(&self, mem: &PhysMem, vpn: int)
        requires
            self.wf(mem),
        ensures
            walk_in_range(mem.ptes(), mem.frame_count() as int, self.root(), vpn),
            mem.frame_count() <= crate::address::PPN_LIMIT,
            mem.wf(),
    {
        self.page_table.lemma_walks_in_range(mem, vpn);
        self.page_table.lemma_mem_wf(mem);
        mem.lemma_frame_limit();
    }
}

impl MemorySet {
    /// Two areas of a well-formed address space share no page.
    pub proof fn lemma_disjoint(&self, mem: &PhysMem, a: int, b: int)
        requires
            self.wf(mem),
            0 <= a < self.areas().len(),
            0 <= b < self.areas().len(),
            a != b,
        ensures
            ranges_disjoint(
                self.areas()[a].start(),
                self.areas()[a].end(),
                self.areas()[b].start(),
                self.areas()[b].end(),
            ),
    {
        assert(self.areas@[a] == self.areas()[a]);
    }
}

impl MemorySet {
    /// Give every frame of the address space back to the allocator: the
    /// data frames of its areas and the frames of its page table.
    pub fn release(self, mem: &mut PhysMem)
        requires
            self.wf(old(mem)),
        ensures
            final(mem).wf(),
            final(mem).frame_count() == old(mem).frame_count(),
            forall|q: int|
                #[trigger] final(mem).is_allocated(q) == (old(mem).is_allocated(q) && !frame_in_areas(
                    self.areas(),
                    0,
                    q,
                ) && !self.table_frames().contains(q)),
            forall|q: int|
                0 <= q < old(mem).frame_count() && !self.table_frames().contains(q) ==> #[trigger] same_frame(
                    old(mem).ptes(),
                    final(mem).ptes(),
                    q,
                ),
    {
        let ghost areas0 = self.areas();
        let ghost owned0 = self.table_frames();
        let mut ms = self;
        ms.recycle_data_pages(mem);
        let ghost mem1 = *mem;
        ms.page_table.release(mem);
        proof {
            assert forall|q: int|
                0 <= q < old(mem).frame_count() && !owned0.contains(q) implies #[trigger] same_frame(
                    old(mem).ptes(),
                    mem.ptes(),
                    q,
                ) by {
                assert(same_frame(old(mem).ptes(), mem1.ptes(), q));
                assert forall|jj: int| 0 <= jj < 512 implies #[trigger] pte_at(mem.ptes(), q, jj) == pte_at(old(mem).ptes(), q, jj) by {
                    assert(pte_at(mem1.ptes(), q, jj) == pte_at(old(mem).ptes(), q, jj));
                }
            }
            assert forall|q: int|
                #[trigger] mem.is_allocated(q) == (old(mem).is_allocated(q) && !frame_in_areas(areas0, 0, q)
                    && !owned0.contains(q)) by {
                assert(mem1.is_allocated(q) == (old(mem).is_allocated(q) && !frame_in_areas(areas0, 0, q)));
            }
        }
    }
}

/// The page of the trampoline, the highest page of the Sv39 space.
pub const TRAMPOLINE_VPN: u64 = 0x7ff_ffff;
/// The page of the trap context, just below the trampoline.
pub const TRAP_CONTEXT_VPN: u64 = 0x7ff_fffe;

/// The entry that maps the trampoline page to frame `ppn`: valid,
/// readable and executable, not user-accessible.
pub open spec fn trampoline_entry(ppn: u64) -> PageTableEntry {
    PageTableEntry { bits: pte_bits(ppn, 2u8 | 8u8 | PTEFlags::V) }
}

impl MemorySet {
    /// Map the trampoline page to frame `ppn`, readable and executable and
    /// outside every area. `None` when the page is already mapped or frames
    /// for the tables run out; the areas and other mappings stay.
    fn map_trampoline(&mut self, mem: &mut PhysMem, ppn: PhysPageNum) -> (r: Option<()>)
        requires
            old(self).wf(old(mem)),
            ppn.0 < crate::address::PPN_LIMIT,
        ensures
            final(self).wf(final(mem)),
            final(self).areas() == old(self).areas(),
            final(self).root() == old(self).root(),
            final(mem).frame_count() == old(mem).frame_count(),
            r is Some ==> final(self).mapped(final(mem)) == old(self).mapped(old(mem)).insert(
                TRAMPOLINE_VPN as int,
                trampoline_entry(ppn.0),
            ),
            old(mem).free_count() >= 2 && !old(self).mapped(old(mem)).contains_key(TRAMPOLINE_VPN as int)
                ==> r is Some,
            r is Some ==> !old(self).mapped(old(mem)).contains_key(TRAMPOLINE_VPN as int),
            r is None ==> final(self).mapped(final(mem)) == old(self).mapped(old(mem)),
            forall|q: int| #[trigger] old(mem).is_allocated(q) ==> final(mem).is_allocated(q),
            forall|q: int|
                0 <= q < old(mem).frame_count() && !final(self).table_frames().contains(q)
                    ==> #[trigger] same_frame(old(mem).ptes(), final(mem).ptes(), q),
            old(self).table_frames().subset_of(final(self).table_frames()),
            forall|q: int|
                #[trigger] final(self).table_frames().contains(q) && !old(self).table_frames().contains(q)
                    ==> !old(mem).is_allocated(q),
    {
        proof {
            self.page_table.lemma_mem_wf(mem);
        }
        if self.has_mapped_pages(mem, VirtPageNum(TRAMPOLINE_VPN), VirtPageNum(TRAMPOLINE_VPN + 1)) {
            return None;
        }
        assert(!self.mapped(mem).contains_key(TRAMPOLINE_VPN as int));
        let ghost mem0 = *mem;
        let ghost owned0 = self.page_table.owned();
        let ghost areas = self.areas@;
        let flags = PTEFlags::from_bits_truncate(PTEFlags::R | PTEFlags::X);
        proof {
            self.page_table.lemma_never_blocked(mem, TRAMPOLINE_VPN as int);
        }
        let r = self.page_table.map(mem, VirtPageNum(TRAMPOLINE_VPN), ppn, flags);
        proof {
            self.page_table.lemma_mem_wf(mem);
            assert forall|q: int|
                0 <= q < mem0.frame_count() && !self.table_frames().contains(q) implies #[trigger] same_frame(
                    mem0.ptes(),
                    mem.ptes(),
                    q,
                ) by {
                assert forall|j: int| 0 <= j < 512 implies #[trigger] pte_at(mem.ptes(), q, j) == pte_at(
                    mem0.ptes(),
                    q,
                    j,
                ) by {}
            }
            assert forall|q: int| #[trigger] mem0.is_allocated(q) implies mem.is_allocated(q) by {
                if self.page_table.owned().contains(q) && !owned0.contains(q) {
                }
            }
            assert forall|a: int, p: int|
                #![trigger self.areas@[a].frame_of(p)]
                0 <= a < self.areas@.len() && self.areas@[a].start() <= p < self.areas@[a].end() implies maps_to(
                self.mapped(mem),
                p,
                area_entry(self.areas@[a].frame_of(p), self.areas@[a].perm()),
            ) by {
                old(self).lemma_area_page(old(mem), a, p);
            }
            assert forall|a: int, k: int|
                0 <= a < areas.len() && areas[a].framed() && 0 <= k < areas[a].frames().len() implies {
                let f = (#[trigger] areas[a].frames()[k]).0 as int;
                &&& mem.is_allocated(f)
                &&& !self.page_table.owned().contains(f)
            } by {
                let f = areas[a].frames()[k].0 as int;
                assert(mem0.is_allocated(f));
                assert(!owned0.contains(f));
            }
        }
        r
    }
}

/// The highest page end among `segs`, 0 when there is none.
pub open spec fn seg_max_end(segs: Seq<(int, int, u8)>) -> int
    decreases segs.len(),
{
    if segs.len() == 0 {
        0
    } else {
        let m = seg_max_end(segs.drop_last());
        if segs.last().1 > m {
            segs.last().1
        } else {
            m
        }
    }
}

/// Pages of the user stack.
pub const USER_STACK_PAGES: u64 = 2;

/// Permissions of the user stack and heap: readable, writable, user.
pub const USER_RW: u8 = 22;

/// Permissions of the trap-context page: readable and writable.
pub const KERNEL_RW: u8 = 6;

/// `ms` over `mem` is the address space that loading the image `elf`
/// builds, with user stack top `sp`, entry point `entry` and the trampoline
/// in frame `trampoline`: one area per loadable segment in header order,
/// user-accessible with the segment's permissions; then the user stack, one
/// guard page above the highest segment page; an empty heap at the stack
/// top; the trap-context page, not user-accessible; and the trampoline page
/// mapped outside the areas.
pub open spec fn elf_space(ms: MemorySet, mem: PhysMem, elf: Seq<u8>, sp: u64, entry: u64, trampoline: u64) -> bool {
    let segs = crate::elf::loads(elf, crate::elf::e_phnum(elf));
    let n = segs.len() as int;
    let bottom = seg_max_end(segs) + 1;
    let top = bottom + USER_STACK_PAGES;
    let areas = ms.areas();
    &&& ms.wf(&mem)
    &&& entry == crate::elf::e_entry(elf)
    &&& sp == top * PAGE_BYTES
    &&& areas.len() == n + 3
    &&& forall|k: int|
        0 <= k < n ==> (#[trigger] areas[k]).start() == segs[k].0 && areas[k].end() == segs[k].1
            && areas[k].perm() == segs[k].2
    &&& areas[n].start() == bottom && areas[n].end() == top && areas[n].perm() == USER_RW
    &&& areas[n + 1].start() == top && areas[n + 1].end() == top && areas[n + 1].perm() == USER_RW
    &&& areas[n + 2].start() == TRAP_CONTEXT_VPN && areas[n + 2].end() == TRAMPOLINE_VPN
        && areas[n + 2].perm() == KERNEL_RW
    &&& maps_to(ms.mapped(&mem), TRAMPOLINE_VPN as int, trampoline_entry(trampoline))
}

proof fn lemma_seg_max_end(segs: Seq<(int, int, u8)>, bound: int)
    requires
        forall|k: int| 0 <= k < segs.len() ==> 0 <= #[trigger] segs[k].1 <= bound,
        0 <= bound,
    ensures
        0 <= seg_max_end(segs) <= bound,
    decreases segs.len(),
{
    if segs.len() > 0 {
        lemma_seg_max_end(segs.drop_last(), bound);
        assert(segs.last() == segs[segs.len() - 1]);
    }
}

/// The number of pages of segments `segs`.
pub open spec fn seg_pages(segs: Seq<(int, int, u8)>) -> int
    decreases segs.len(),
{
    if segs.len() == 0 {
        0
    } else {
        seg_pages(segs.drop_last()) + (segs.last().1 - segs.last().0)
    }
}

/// No two segments of `segs` share a page.
pub open spec fn segs_apart(segs: Seq<(int, int, u8)>) -> bool {
    forall|i: int, j: int|
        0 <= i < segs.len() && 0 <= j < segs.len() && i != j ==> ranges_disjoint(
            #[trigger] segs[i].0,
            segs[i].1,
            #[trigger] segs[j].0,
            segs[j].1,
        )
}

/// Loading `elf` succeeds when frames last: a valid image whose loadable
/// segments share no page and whose stack stays below the trap-context
/// page, with three free frames per page to map and a few for the tables.
pub open spec fn elf_loadable(elf: Seq<u8>, free: int) -> bool {
    let segs = crate::elf::loads(elf, crate::elf::e_phnum(elf));
    &&& crate::elf::valid_elf(elf)
    &&& segs_apart(segs)
    &&& seg_max_end(segs) + 1 + USER_STACK_PAGES <= TRAP_CONTEXT_VPN
    &&& free >= 3 * seg_pages(segs) + 12
}

/// The loadable segments of the first `i` headers are the first ones of
/// those of the first `n`.
proof fn lemma_loads_prefix(s: Seq<u8>, i: int, n: int)
    requires
        0 <= i <= n,
    ensures
        crate::elf::loads(s, i).len() <= crate::elf::loads(s, n).len(),
        forall|k: int|
            0 <= k < crate::elf::loads(s, i).len() ==> #[trigger] crate::elf::loads(s, i)[k]
                == crate::elf::loads(s, n)[k],
        seg_pages(crate::elf::loads(s, i)) <= seg_pages(crate::elf::loads(s, n)),
    decreases n - i,
{
    if i < n {
        lemma_loads_prefix(s, i, n - 1);
        lemma_loads_step(s, n);
    }
}

/// One more header adds its segment, if loadable, at the end.
proof fn lemma_loads_step(s: Seq<u8>, n: int)
    requires
        n >= 1,
    ensures
        crate::elf::loads(s, n).len() >= crate::elf::loads(s, n - 1).len(),
        forall|k: int|
            0 <= k < crate::elf::loads(s, n - 1).len() ==> #[trigger] crate::elf::loads(s, n - 1)[k]
                == crate::elf::loads(s, n)[k],
        seg_pages(crate::elf::loads(s, n - 1)) <= seg_pages(crate::elf::loads(s, n)),
{
    if crate::elf::p_type(s, n - 1) == crate::elf::PT_LOAD {
        let segs = crate::elf::loads(s, n);
        assert(segs.drop_last() == crate::elf::loads(s, n - 1));
        let v = crate::elf::p_vaddr(s, n - 1);
        let m = crate::elf::p_memsz(s, n - 1);
        crate::elf::lemma_field_nonneg(s, n - 1);
        assert((if v + m == 0 { 0 } else { (v + m - 1) / 4096 + 1 }) >= v / 4096) by (nonlinear_arith)
            requires
                v >= 0,
                m >= 0,
        ;
    }
}

/// The highest page end is at least each segment's end.
proof fn lemma_seg_max_end_bounds(segs: Seq<(int, int, u8)>)
    ensures
        forall|k: int| 0 <= k < segs.len() ==> #[trigger] segs[k].1 <= seg_max_end(segs),
    decreases segs.len(),
{
    if segs.len() > 0 {
        lemma_seg_max_end_bounds(segs.drop_last());
        assert forall|k: int| 0 <= k < segs.len() implies #[trigger] segs[k].1 <= seg_max_end(segs) by {
            if k < segs.len() - 1 {
                assert(segs.drop_last()[k] == segs[k]);
            }
        }
    }
}

/// The permission bits of a segment with flags `f`.
fn segment_bits(f: u64) -> (r: MapPermission)
    ensures
        r.value() == crate::elf::segment_perm(f as int),
        r.value() & MapPermission::U == MapPermission::U,
        (r.value() & MapPermission::W != 0) == (f & crate::elf::PF_W != 0),
        (r.value() & MapPermission::R != 0) == (f & crate::elf::PF_R != 0),
        (r.value() & MapPermission::X != 0) == (f & crate::elf::PF_X != 0),
{
    proof {
        crate::laws::law_segment_permissions(f);
    }
    let a: u8 = if f & crate::elf::PF_R != 0 { 2u8 } else { 0u8 };
    let b: u8 = if f & crate::elf::PF_W != 0 { 4u8 } else { 0u8 };
    let c: u8 = if f & crate::elf::PF_X != 0 { 8u8 } else { 0u8 };
    let bits: u8 = 16u8 | a | b | c;
    proof {
        assert((a == 0u8 || a == 2u8) && (b == 0u8 || b == 4u8) && (c == 0u8 || c == 8u8) ==> (16u8 | a
            | b | c) & 0xe1u8 == 0u8) by (bit_vector);
    }
    match MapPermission::from_bits(bits) {
        Some(p) => p,
        None => MapPermission { bits },
    }
}

/// `m1` keeps every frame in use in `m0` in use, with its contents, and
/// every frame of `ms` was free in `m0`.
pub open spec fn keeps_frames(m0: PhysMem, m1: PhysMem, ms: MemorySet) -> bool {
    &&& m1.frame_count() == m0.frame_count()
    &&& forall|q: int| #[trigger] m0.is_allocated(q) ==> m1.is_allocated(q)
    &&& forall|q: int|
        0 <= q < m0.frame_count() && m0.is_allocated(q) ==> #[trigger] same_frame(m0.ptes(), m1.ptes(), q)
    &&& frames_fresh(ms, m0)
}

/// Frame contents carry over two steps.
proof fn lemma_same_frame_trans(m0: Seq<PageTableEntry>, m1: Seq<PageTableEntry>, m2: Seq<PageTableEntry>, q: int)
    requires
        same_frame(m0, m1, q),
        same_frame(m1, m2, q),
    ensures
        same_frame(m0, m2, q),
{
    assert forall|j: int| 0 <= j < 512 implies #[trigger] pte_at(m2, q, j) == pte_at(m0, q, j) by {
        assert(pte_at(m2, q, j) == pte_at(m1, q, j));
    }
}

/// Giving back the frames of a space whose frames were free in `m0` keeps
/// what `m0` had in use.
proof fn lemma_release_keeps(ms: MemorySet, m0: PhysMem, m1: PhysMem, m2: PhysMem)
    requires
        ms.wf(&m1),
        keeps_frames(m0, m1, ms),
        m2.frame_count() == m1.frame_count(),
        forall|q: int|
            #[trigger] m2.is_allocated(q) == (m1.is_allocated(q) && !frame_in_areas(ms.areas(), 0, q)
                && !ms.table_frames().contains(q)),
        forall|q: int|
            0 <= q < m1.frame_count() && !ms.table_frames().contains(q) ==> #[trigger] same_frame(
                m1.ptes(),
                m2.ptes(),
                q,
            ),
    ensures
        forall|q: int| #[trigger] m0.is_allocated(q) ==> m2.is_allocated(q),
        forall|q: int|
            0 <= q < m0.frame_count() && m0.is_allocated(q) ==> #[trigger] same_frame(m0.ptes(), m2.ptes(), q),
{
    assert forall|q: int| #[trigger] m0.is_allocated(q) implies m2.is_allocated(q) by {
        lemma_fresh_not_own(ms, m1, m0, q);
    }
    assert forall|q: int|
        0 <= q < m0.frame_count() && m0.is_allocated(q) implies #[trigger] same_frame(m0.ptes(), m2.ptes(), q) by {
        lemma_fresh_not_own(ms, m1, m0, q);
        lemma_same_frame_trans(m0.ptes(), m1.ptes(), m2.ptes(), q);
    }
}

/// Adding a fresh area, or fresh page-table frames, keeps what `m0` had in
/// use.
proof fn lemma_grow_keeps(ms0: MemorySet, m1: PhysMem, ms1: MemorySet, m2: PhysMem, m0: PhysMem)
    requires
        keeps_frames(m0, m1, ms0),
        m2.frame_count() == m1.frame_count(),
        forall|q: int| #[trigger] m1.is_allocated(q) ==> m2.is_allocated(q),
        forall|q: int|
            0 <= q < m1.frame_count() && m1.is_allocated(q) && !ms1.table_frames().contains(q)
                ==> #[trigger] same_frame(m1.ptes(), m2.ptes(), q),
        forall|q: int|
            #[trigger] ms1.table_frames().contains(q) && !ms0.table_frames().contains(q) ==> !m1.is_allocated(q),
        ms1.areas().take(ms0.areas().len() as int) == ms0.areas(),
        ms1.areas().len() >= ms0.areas().len(),
        forall|a: int, p: int|
            ms0.areas().len() <= a < ms1.areas().len() && ms1.areas()[a].start() <= p < ms1.areas()[a].end()
                ==> !m1.is_allocated(#[trigger] ms1.areas()[a].frame_of(p)),
    ensures
        keeps_frames(m0, m2, ms1),
{
    assert forall|q: int| #[trigger] ms1.table_frames().contains(q) implies !m0.is_allocated(q) by {
        if !ms0.table_frames().contains(q) {
            if m0.is_allocated(q) {
                assert(m1.is_allocated(q));
            }
        }
    }
    assert forall|a: int, p: int|
        0 <= a < ms1.areas().len() && ms1.areas()[a].start() <= p < ms1.areas()[a].end() implies !m0.is_allocated(
        #[trigger] ms1.areas()[a].frame_of(p),
    ) by {
        if a < ms0.areas().len() {
            assert(ms1.areas().take(ms0.areas().len() as int)[a] == ms1.areas()[a]);
        } else {
            if m0.is_allocated(ms1.areas()[a].frame_of(p)) {
                assert(m1.is_allocated(ms1.areas()[a].frame_of(p)));
            }
        }
    }
    assert forall|q: int|
        0 <= q < m0.frame_count() && m0.is_allocated(q) implies #[trigger] same_frame(m0.ptes(), m2.ptes(), q) by {
        assert(m1.is_allocated(q));
        assert(!ms1.table_frames().contains(q));
        lemma_same_frame_trans(m0.ptes(), m1.ptes(), m2.ptes(), q);
    }
}

impl MemorySet {
    /// Build the address space of the ELF image `elf`, with the trampoline
    /// in frame `trampoline`, and return it with the user stack top and the
    /// entry point; see `elf_space`. `None` when `elf` is not a valid image,
    /// when its segments share a page, when the stack would reach the
    /// trap-context page, or when frames run out; every frame taken is then
    /// given back.
    #[verifier::spinoff_prover]
    #[verifier::rlimit(100)]
    pub fn from_elf(mem: &mut PhysMem, elf: &Vec<u8>, trampoline: PhysPageNum) -> (r: Option<(MemorySet, u64, u64)>)
        requires
            old(mem).wf(),
            trampoline.0 < crate::address::PPN_LIMIT,
        ensures
            final(mem).wf(),
            final(mem).frame_count() == old(mem).frame_count(),
            !crate::elf::valid_elf(elf@) ==> r is None && *final(mem) == *old(mem),
            r is Some ==> crate::elf::valid_elf(elf@),
            r matches Some((ms, sp, entry)) ==> elf_space(ms, *final(mem), elf@, sp, entry, trampoline.0),
            r matches Some((ms, sp, entry)) ==> frames_fresh(ms, *old(mem)),
            elf_loadable(elf@, old(mem).free_count() as int) ==> r is Some,
            r matches Some((ms, sp, entry)) ==> segments_loaded(ms, *final(mem), elf@, crate::elf::e_phnum(elf@)),
            forall|q: int| #[trigger] old(mem).is_allocated(q) ==> final(mem).is_allocated(q),
            forall|q: int|
                0 <= q < old(mem).frame_count() && old(mem).is_allocated(q) ==> #[trigger] same_frame(
                    old(mem).ptes(),
                    final(mem).ptes(),
                    q,
                ),
    {
        if !crate::elf::check_elf(elf) {
            return None;
        }
        proof {
            crate::elf::lemma_field_nonneg(elf@, 0);
            lemma_loads_prefix(elf@, 0, crate::elf::e_phnum(elf@));
            assert(seg_pages(crate::elf::loads(elf@, 0)) == 0);
        }
        if !mem.has_free_frame() {
            return None;
        }
        let mut ms = MemorySet::new_bare(mem);
        proof {
            assert forall|q: int|
                0 <= q < old(mem).frame_count() && old(mem).is_allocated(q) implies #[trigger] same_frame(
                    old(mem).ptes(),
                    mem.ptes(),
                    q,
                ) by {
                assert(q != ms.root());
            }
            assert forall|q: int| #[trigger] old(mem).is_allocated(q) implies mem.is_allocated(q) by {
                assert(q != ms.root());
            }
            assert(keeps_frames(*old(mem), *mem, ms));
        }
        let elf_len = elf.len();
        let phoff64 = crate::elf::read_le(elf, 32, 8);
        let phnum64 = crate::elf::read_le(elf, 56, 2);
        let ghost s = elf@;
        proof {
            assert(phoff64 + phnum64 * 56 <= elf_len);
        }
        let phoff = phoff64 as usize;
        let phnum = phnum64 as usize;
        let ghost big_f = old(mem).free_count() as int;
        let ghost all = crate::elf::loads(s, phnum as int);
        let ghost loadable = elf_loadable(elf@, big_f);
        proof {
            assert(seg_pages(crate::elf::loads(s, 0)) == 0);
            assert forall|p: int| #[trigger] ms.mapped(mem).contains_key(p) implies in_areas(ms.areas(), 0, p) by {
                assert(!ms.mapped(mem).contains_key(p));
            }
        }
        let mut max_end: u64 = 0;
        let mut i: usize = 0;
        while i < phnum
            invariant
                crate::elf::valid_elf(s),
                s == elf@,
                phoff == crate::elf::e_phoff(s),
                phnum == crate::elf::e_phnum(s),
                s.len() == elf_len,
                phoff + phnum * 56 <= s.len(),
                i <= phnum,
                ms.wf(mem),
                mem.frame_count() == old(mem).frame_count(),
                keeps_frames(*old(mem), *mem, ms),
                ms.areas().len() == crate::elf::loads(s, i as int).len(),
                forall|k: int|
                    0 <= k < ms.areas().len() ==> (#[trigger] ms.areas()[k]).start() == crate::elf::loads(
                        s,
                        i as int,
                    )[k].0 && ms.areas()[k].end() == crate::elf::loads(s, i as int)[k].1
                        && ms.areas()[k].perm() == crate::elf::loads(s, i as int)[k].2,
                max_end == seg_max_end(crate::elf::loads(s, i as int)),
                max_end <= 0x400_0000,
                big_f == old(mem).free_count(),
                all == crate::elf::loads(s, phnum as int),
                loadable == elf_loadable(elf@, big_f),
                loadable ==> mem.free_count() + 1 + 3 * seg_pages(crate::elf::loads(s, i as int)) >= big_f,
                forall|p: int| #[trigger] ms.mapped(mem).contains_key(p) ==> in_areas(ms.areas(), 0, p),
                segments_loaded(ms, *mem, s, i as int),
            decreases phnum - i,
        {
            proof {
                assert(phoff + i * 56 + 56 <= s.len()) by (nonlinear_arith)
                    requires
                        phoff + phnum * 56 <= s.len(),
                        i < phnum,
                ;
            }
            let base = phoff + i * 56;
            let ghost segs0 = crate::elf::loads(s, i as int);
            if crate::elf::read_le(elf, base, 4) == crate::elf::PT_LOAD {
                assert(crate::elf::load_ok(s, i as int));
                let vaddr = crate::elf::read_le(elf, base + 16, 8);
                let memsz = crate::elf::read_le(elf, base + 40, 8);
                let flags = crate::elf::read_le(elf, base + 4, 4);
                let start_va = VirtAddr(vaddr);
                let end_va = VirtAddr(vaddr + memsz);
                let perm = segment_bits(flags);
                proof {
                    lemma_pages_in_range(start_va);
                    lemma_pages_in_range(end_va);
                    lemma_page_bounds(start_va, end_va);
                    assert(ceil_page(end_va) <= 0x400_0000) by (nonlinear_arith)
                        requires
                            end_va.0 <= 0x40_0000_0000,
                            ceil_page(end_va) == if end_va.0 == 0 {
                                0
                            } else {
                                (end_va.0 - 1) / 4096 + 1
                            },
                    ;
                }
                proof {
                    let segs1 = crate::elf::loads(s, i + 1);
                    assert(segs1 == segs0.push((
                        vaddr as int / 4096,
                        if vaddr + memsz == 0 { 0 } else { (vaddr + memsz - 1) / 4096 + 1 },
                        crate::elf::segment_perm(flags as int),
                    )));
                    assert(segs1.drop_last() == segs0);
                    assert(seg_pages(segs1) == seg_pages(segs0) + (ceil_page(end_va) - floor_page(start_va)));
                    lemma_loads_prefix(s, i + 1, phnum as int);
                    lemma_loads_prefix(s, i as int, phnum as int);
                    assert(segs1[segs0.len() as int] == all[segs0.len() as int]);
                }
                if ms.has_mapped_pages(mem, start_va.floor(), end_va.ceil()) {
                    proof {
                        if loadable {
                            let p = choose|p: int|
                                floor_page(start_va) <= p < ceil_page(end_va) && #[trigger] ms.mapped(mem).contains_key(p);
                            let k = choose|k: int|
                                0 <= k < ms.areas().len() && (#[trigger] ms.areas()[k]).start() <= p < ms.areas()[k].end();
                            let m = segs0.len() as int;
                            assert(all[k] == segs0[k]);
                            assert(k != m);
                            assert(ranges_disjoint(all[k].0, all[k].1, all[m].0, all[m].1));
                        }
                        assert(!loadable);
                    }
                    let ghost msr = ms;
                    let ghost m_f = *mem;
                    ms.release(mem);
                    proof {
                        lemma_release_keeps(msr, *old(mem), m_f, *mem);
                    }
                    return None;
                }
                let ghost ms0 = ms;
                let ghost mem0 = *mem;
                let ghost msb = ms;
                let ghost mb = *mem;
                match ms.insert_framed_area(mem, start_va, end_va, perm) {
                    Some(()) => {},
                    None => {
                        proof {
                            assert(!loadable);
                            assert(ms.areas().take(msb.areas().len() as int) =~= msb.areas());
                            lemma_grow_keeps(msb, mb, ms, *mem, *old(mem));
                        }
                        let ghost msr = ms;
                        let ghost m_f = *mem;
                        ms.release(mem);
                        proof {
                            lemma_release_keeps(msr, *old(mem), m_f, *mem);
                        }
                        return None;
                    },
                }
                proof {
                    assert(ms.areas().take(msb.areas().len() as int) =~= msb.areas());
                    lemma_grow_keeps(msb, mb, ms, *mem, *old(mem));
                }
                let e = end_va.ceil().0;
                if e > max_end {
                    max_end = e;
                }
                proof {
                    let segs1 = crate::elf::loads(s, i + 1);
                    assert(segs1 == segs0.push((
                        vaddr as int / 4096,
                        if vaddr + memsz == 0 { 0 } else { (vaddr + memsz - 1) / 4096 + 1 },
                        crate::elf::segment_perm(flags as int),
                    )));
                    assert(segs1.drop_last() == segs0);
                    assert(area_appended(ms0, mem0, ms, *mem, floor_page(start_va), ceil_page(end_va), perm.value()));
                    assert forall|k: int| 0 <= k < ms.areas().len() implies (#[trigger] ms.areas()[k]).start()
                        == segs1[k].0 && ms.areas()[k].end() == segs1[k].1 && ms.areas()[k].perm() == segs1[k].2 by {
                        if k < segs0.len() {
                            assert(ms.areas().take(segs0.len() as int)[k] == ms0.areas()[k]);
                        }
                    }
                    assert forall|p: int| #[trigger] ms.mapped(mem).contains_key(p) implies in_areas(ms.areas(), 0, p) by {
                        let m = segs0.len() as int;
                        if floor_page(start_va) <= p < ceil_page(end_va) {
                            assert(ms.areas()[m].start() <= p < ms.areas()[m].end());
                        } else {
                            assert(ms0.mapped(&mem0).contains_key(p));
                            let k = choose|k: int|
                                0 <= k < ms0.areas().len() && (#[trigger] ms0.areas()[k]).start() <= p < ms0.areas()[k].end();
                            assert(ms.areas().take(m)[k] == ms.areas()[k]);
                        }
                    }
                }
                let ghost m = segs0.len() as int;
                proof {
                    assert forall|p: int| #[trigger] ms0.mapped(&mem0).contains_key(p) implies ms.mapped(mem).contains_key(p)
                        && ms.mapped(mem)[p] == ms0.mapped(&mem0)[p] by {
                        if floor_page(start_va) <= p < ceil_page(end_va) {
                            assert(!ms0.mapped(&mem0).contains_key(p));
                        }
                    }
                    lemma_loaded_kept(ms0, mem0, ms, *mem, s, i as int);
                    assert(ms.areas().take(m) == ms0.areas());
                    assert forall|j: int|
                        #![trigger segment_loaded(ms, *mem, s, j)]
                        0 <= j < i && crate::elf::p_type(s, j) == crate::elf::PT_LOAD implies segment_loaded(ms, *mem, s, j)
                            && segment_in_areas_prefix(ms, s, j, m) by {
                        assert(0 <= j < i);
                        assert(segment_loaded(ms0, mem0, s, j));
                        assert(segment_in_areas(ms0, s, j));
                        assert(segment_loaded(ms, *mem, s, j));
                    }
                }
                let ghost m_i = *mem;
                ms.copy_segment(mem, elf, base, Ghost(i as int), Ghost(m));
                proof {
                    lemma_loaded_copy_kept(ms, m_i, *mem, s, i as int, m);
                    assert forall|q: int|
                        0 <= q < old(mem).frame_count() && old(mem).is_allocated(q) implies #[trigger] same_frame(
                            old(mem).ptes(),
                            mem.ptes(),
                            q,
                        ) by {
                        lemma_fresh_not_own(ms, m_i, *old(mem), q);
                        lemma_same_frame_trans(old(mem).ptes(), m_i.ptes(), mem.ptes(), q);
                    }
                    assert forall|j: int|
                        #![trigger segment_loaded(ms, *mem, s, j)]
                        0 <= j < i + 1 && crate::elf::p_type(s, j) == crate::elf::PT_LOAD implies segment_loaded(ms, *mem, s, j)
                            && segment_in_areas(ms, s, j) by {
                        if j < i {
                            assert(0 <= j < i);
                            assert(segment_loaded(ms, m_i, s, j));
                            assert(segment_loaded(ms, *mem, s, j));
                            assert(segment_in_areas(ms, s, j));
                        }
                    }
                    assert(segment_loaded(ms, *mem, s, i as int));
                }
            } else {
                proof {
                    assert(crate::elf::loads(s, i + 1) == segs0);
                    assert forall|j: int|
                        #![trigger segment_loaded(ms, *mem, s, j)]
                        0 <= j < i + 1 && crate::elf::p_type(s, j) == crate::elf::PT_LOAD implies segment_loaded(ms, *mem, s, j)
                            && segment_in_areas(ms, s, j) by {
                        assert(j != i);
                        assert(0 <= j < i);
                    }
                }
            }
            assert(segments_loaded(ms, *mem, s, i + 1));
            i = i + 1;
        }
        let ghost segs = crate::elf::loads(s, phnum as int);
        let ghost n = segs.len() as int;
        let bottom = max_end + 1;
        let top = bottom + USER_STACK_PAGES;
        proof {
            lemma_seg_max_end_bounds(all);
        }
        if top > TRAP_CONTEXT_VPN || ms.has_mapped_pages(mem, VirtPageNum(bottom), VirtPageNum(top)) {
            proof {
                if loadable && top <= TRAP_CONTEXT_VPN {
                    let p = choose|p: int| bottom <= p < top && #[trigger] ms.mapped(mem).contains_key(p);
                    let k = choose|k: int|
                        0 <= k < ms.areas().len() && (#[trigger] ms.areas()[k]).start() <= p < ms.areas()[k].end();
                    assert(all[k].1 <= seg_max_end(all));
                }
                assert(!loadable);
            }
            let ghost msr = ms;
            let ghost m_f = *mem;
            ms.release(mem);
            proof {
                lemma_release_keeps(msr, *old(mem), m_f, *mem);
            }
            return None;
        }
        let ghost a0 = ms.areas();
        let stack_perm = MapPermission { bits: USER_RW };
        let ghost ms0 = ms;
        let ghost mem0 = *mem;
        let stack_start = VirtAddr(bottom * PAGE_BYTES);
        let stack_end = VirtAddr(top * PAGE_BYTES);
        let ghost msb = ms;
        let ghost mb = *mem;
        proof {
            assert(floor_page(stack_start) == bottom);
            assert(ceil_page(stack_end) == top);
        }
        let ghost free_s = mem.free_count();
        match ms.insert_framed_area(mem, stack_start, stack_end, stack_perm) {
            Some(()) => {},
            None => {
                proof {
                    assert(!loadable);
                    assert(ms.areas().take(msb.areas().len() as int) =~= msb.areas());
                    lemma_grow_keeps(msb, mb, ms, *mem, *old(mem));
                }
                let ghost msr = ms;
                let ghost m_f = *mem;
                ms.release(mem);
                proof {
                    lemma_release_keeps(msr, *old(mem), m_f, *mem);
                }
                return None;
            },
        }
        proof {
            assert(ms.areas().take(msb.areas().len() as int) =~= msb.areas());
            lemma_grow_keeps(msb, mb, ms, *mem, *old(mem));
        }
        proof {
            assert(floor_page(stack_start) == bottom);
            assert(ceil_page(stack_end) == top);
            assert(area_appended(ms0, mem0, ms, *mem, bottom as int, top as int, USER_RW));
            assert forall|p: int| #[trigger] ms0.mapped(&mem0).contains_key(p) implies ms.mapped(mem).contains_key(p)
                && ms.mapped(mem)[p] == ms0.mapped(&mem0)[p] by {
                if bottom <= p < top {
                    assert(!ms0.mapped(&mem0).contains_key(p));
                }
            }
            assert(i == phnum);
            assert(segments_loaded(ms0, mem0, s, phnum as int));
            lemma_loaded_kept(ms0, mem0, ms, *mem, s, phnum as int);
            assert(loadable ==> mem.free_count() + 1 + 3 * seg_pages(all) + 6 >= big_f);
            assert forall|p: int| #[trigger] ms.mapped(mem).contains_key(p) implies in_areas(ms.areas(), 0, p) by {
                let m = ms0.areas().len() as int;
                if bottom <= p < top {
                    assert(ms.areas()[m].start() <= p < ms.areas()[m].end());
                } else {
                    assert(ms0.mapped(&mem0).contains_key(p));
                    let k = choose|k: int|
                        0 <= k < ms0.areas().len() && (#[trigger] ms0.areas()[k]).start() <= p < ms0.areas()[k].end();
                    assert(ms.areas().take(m)[k] == ms.areas()[k]);
                }
            }
        }
        let ghost a1 = ms.areas();
        let ghost ms1 = ms;
        let ghost mem1 = *mem;
        let ghost msb = ms;
        let ghost mb = *mem;
        match ms.insert_framed_area(mem, VirtAddr(top * PAGE_BYTES), VirtAddr(top * PAGE_BYTES), stack_perm) {
            Some(()) => {},
            None => {
                proof {
                    assert(ms.areas().take(msb.areas().len() as int) =~= msb.areas());
                    lemma_grow_keeps(msb, mb, ms, *mem, *old(mem));
                }
                let ghost msr = ms;
                let ghost m_f = *mem;
                ms.release(mem);
                proof {
                    lemma_release_keeps(msr, *old(mem), m_f, *mem);
                }
                return None;
            },
        }
        proof {
            assert(ms.areas().take(msb.areas().len() as int) =~= msb.areas());
            lemma_grow_keeps(msb, mb, ms, *mem, *old(mem));
        }
        proof {
            assert(area_appended(ms1, mem1, ms, *mem, top as int, top as int, USER_RW));
            assert forall|p: int| #[trigger] ms1.mapped(&mem1).contains_key(p) implies ms.mapped(mem).contains_key(p)
                && ms.mapped(mem)[p] == ms1.mapped(&mem1)[p] by {
                if top <= p < top {
                    assert(!ms1.mapped(&mem1).contains_key(p));
                }
            }
            lemma_loaded_kept(ms1, mem1, ms, *mem, s, phnum as int);
            assert forall|p: int| #[trigger] ms.mapped(mem).contains_key(p) implies in_areas(ms.areas(), 0, p) by {
                let m = ms1.areas().len() as int;
                assert(ms1.mapped(&mem1).contains_key(p));
                let k = choose|k: int|
                    0 <= k < ms1.areas().len() && (#[trigger] ms1.areas()[k]).start() <= p < ms1.areas()[k].end();
                assert(ms.areas().take(m)[k] == ms.areas()[k]);
            }
        }
        let ghost a2 = ms.areas();
        if ms.has_mapped_pages(mem, VirtPageNum(TRAP_CONTEXT_VPN), VirtPageNum(TRAMPOLINE_VPN)) {
            proof {
                if loadable {
                    let p = choose|p: int|
                        TRAP_CONTEXT_VPN <= p < TRAMPOLINE_VPN && #[trigger] ms.mapped(mem).contains_key(p);
                    let k = choose|k: int|
                        0 <= k < ms.areas().len() && (#[trigger] ms.areas()[k]).start() <= p < ms.areas()[k].end();
                    assert(a2.take(n + 1) == a1);
                    assert(a1.take(n) == a0);
                    if k < n {
                        assert(a1.take(n)[k] == a1[k]);
                        assert(a2.take(n + 1)[k] == a2[k]);
                        assert(all[k].1 <= seg_max_end(all));
                    } else if k == n {
                        assert(a2.take(n + 1)[k] == a2[k]);
                    }
                }
                assert(!loadable);
            }
            let ghost msr = ms;
            let ghost m_f = *mem;
            ms.release(mem);
            proof {
                lemma_release_keeps(msr, *old(mem), m_f, *mem);
            }
            return None;
        }
        let ghost ms2 = ms;
        let ghost mem2 = *mem;
        let trap_perm = MapPermission { bits: KERNEL_RW };
        let ghost msb = ms;
        let ghost mb = *mem;
        match ms.insert_framed_area(
            mem,
            VirtAddr(TRAP_CONTEXT_VPN * PAGE_BYTES),
            VirtAddr(TRAMPOLINE_VPN * PAGE_BYTES),
            trap_perm,
        ) {
            Some(()) => {},
            None => {
                proof {
                    assert(ms.areas().take(msb.areas().len() as int) =~= msb.areas());
                    lemma_grow_keeps(msb, mb, ms, *mem, *old(mem));
                }
                let ghost msr = ms;
                let ghost m_f = *mem;
                ms.release(mem);
                proof {
                    lemma_release_keeps(msr, *old(mem), m_f, *mem);
                }
                return None;
            },
        }
        proof {
            assert(ms.areas().take(msb.areas().len() as int) =~= msb.areas());
            lemma_grow_keeps(msb, mb, ms, *mem, *old(mem));
        }
        proof {
            assert(area_appended(ms2, mem2, ms, *mem, TRAP_CONTEXT_VPN as int, TRAMPOLINE_VPN as int, KERNEL_RW));
            assert forall|p: int| #[trigger] ms2.mapped(&mem2).contains_key(p) implies ms.mapped(mem).contains_key(p)
                && ms.mapped(mem)[p] == ms2.mapped(&mem2)[p] by {
                if TRAP_CONTEXT_VPN <= p < TRAMPOLINE_VPN {
                    assert(!ms2.mapped(&mem2).contains_key(p));
                }
            }
            lemma_loaded_kept(ms2, mem2, ms, *mem, s, phnum as int);
        }
        let ghost a3 = ms.areas();
        let ghost msb = ms;
        let ghost mb = *mem;
        match ms.map_trampoline(mem, trampoline) {
            Some(()) => {},
            None => {
                proof {
                    assert(ms.areas().take(msb.areas().len() as int) =~= msb.areas());
                    lemma_grow_keeps(msb, mb, ms, *mem, *old(mem));
                }
                let ghost msr = ms;
                let ghost m_f = *mem;
                ms.release(mem);
                proof {
                    lemma_release_keeps(msr, *old(mem), m_f, *mem);
                }
                return None;
            },
        }
        proof {
            assert(ms.areas().take(msb.areas().len() as int) =~= msb.areas());
            lemma_grow_keeps(msb, mb, ms, *mem, *old(mem));
            assert forall|p: int| #[trigger] msb.mapped(&mb).contains_key(p) implies ms.mapped(mem).contains_key(p)
                && ms.mapped(mem)[p] == msb.mapped(&mb)[p] by {
                assert(p != TRAMPOLINE_VPN as int);
            }
            lemma_loaded_kept(msb, mb, ms, *mem, s, phnum as int);
        }
        let entry = crate::elf::read_le(elf, 24, 8);
        proof {
            assert(a3.take(n + 2) == a2);
            assert(a2.take(n + 1) == a1);
            assert(a1.take(n) == a0);
            assert forall|k: int| 0 <= k < n implies (#[trigger] ms.areas()[k]).start() == segs[k].0
                && ms.areas()[k].end() == segs[k].1 && ms.areas()[k].perm() == segs[k].2 by {
                assert(a3.take(n + 2)[k] == a3[k]);
                assert(a2.take(n + 1)[k] == a2[k]);
                assert(a1.take(n)[k] == a1[k]);
                assert(a0[k] == ms.areas()[k]);
            }
            assert(a3.take(n + 2)[n] == a3[n]);
            assert(a2.take(n + 1)[n] == a2[n]);
            assert(a3.take(n + 2)[n + 1] == a3[n + 1]);
        }
        Some((ms, top * PAGE_BYTES, entry))
    }
}

impl MemorySet {
    /// An address space stays well formed, with the same mappings, while
    /// its page-table frames keep their contents and no frame it uses is
    /// given back.
    pub proof fn lemma_wf_kept(&self, m1: &PhysMem, m2: &PhysMem)
        requires
            self.wf(m1),
            m2.wf(),
            m2.frame_count() == m1.frame_count(),
            forall|q: int|
                0 <= q < m1.frame_count() && #[trigger] self.table_frames().contains(q) ==> same_frame(
                    m1.ptes(),
                    m2.ptes(),
                    q,
                ),
            forall|q: int| #[trigger] m1.is_allocated(q) ==> m2.is_allocated(q),
        ensures
            self.wf(m2),
            self.mapped(m2) == self.mapped(m1),
    {
        self.page_table.lemma_mem_wf(m1);
        assert forall|f: int, i: int|
            self.page_table.owned().contains(f) && 0 <= i < 512 implies #[trigger] pte_at(m2.ptes(), f, i)
                == pte_at(m1.ptes(), f, i) by {
            assert(self.table_frames().contains(f));
            assert(0 <= f < m1.frame_count());
            assert(same_frame(m1.ptes(), m2.ptes(), f));
        }
        self.page_table.lemma_wf_other_frames(m1, m2);
        let areas = self.areas@;
        assert forall|a: int, k: int|
            0 <= a < areas.len() && areas[a].framed() && 0 <= k < areas[a].frames().len() implies {
            let f = (#[trigger] areas[a].frames()[k]).0 as int;
            &&& m2.is_allocated(f)
            &&& !self.page_table.owned().contains(f)
        } by {
            assert(m1.is_allocated(areas[a].frames()[k].0 as int));
        }
    }

    /// The data frame of page `p` of area `a`.
    fn area_frame(&self, a: usize, p: u64) -> (r: PhysPageNum)
        requires
            a < self.areas().len(),
            self.areas()[a as int].framed(),
            self.areas()[a as int].start() <= p < self.areas()[a as int].end(),
            self.areas()[a as int].frames().len() == self.areas()[a as int].end() - self.areas()[a as int].start(),
        ensures
            r.0 == self.areas()[a as int].frame_of(p as int),
    {
        let area = &self.areas[a];
        let n = area.data_frames.len();
        let k = p - area.vpn_start.0;
        assert(k < n);
        area.data_frames[k as usize]
    }

    /// The bounds and permissions of area `a`.
    fn area_bounds(&self, a: usize) -> (r: (u64, u64, MapPermission))
        requires
            a < self.areas().len(),
        ensures
            r.0 == self.areas()[a as int].start(),
            r.1 == self.areas()[a as int].end(),
            r.2.value() == self.areas()[a as int].perm(),
    {
        let area = &self.areas[a];
        (area.vpn_start.0, area.vpn_end.0, area.map_perm)
    }
}

/// Every page of `child`'s area `a` holds in `m1` what the same page of
/// `parent`'s area `a` held in `m0`.
pub open spec fn area_copied(parent: MemorySet, m0: PhysMem, child: MemorySet, m1: PhysMem, a: int) -> bool {
    forall|p: int, j: int|
        parent.areas()[a].start() <= p < parent.areas()[a].end() && 0 <= j < 512 ==> #[trigger] pte_at(
            m1.ptes(),
            child.areas()[a].frame_of(p),
            j,
        ) == pte_at(m0.ptes(), parent.areas()[a].frame_of(p), j)
}

/// Every frame of `ms`, page table and data, was free in `mem0`.
pub open spec fn frames_fresh(ms: MemorySet, mem0: PhysMem) -> bool {
    &&& forall|q: int| #[trigger] ms.table_frames().contains(q) ==> !mem0.is_allocated(q)
    &&& forall|a: int, p: int|
        0 <= a < ms.areas().len() && ms.areas()[a].start() <= p < ms.areas()[a].end()
            ==> !mem0.is_allocated(#[trigger] ms.areas()[a].frame_of(p))
}

impl MemorySet {
    /// Copy every page of `parent`'s area `a` into the same page of
    /// `child`'s area `a`.
    fn copy_area(parent: &MemorySet, child: &MemorySet, mem: &mut PhysMem, a: usize, Ghost(mem0): Ghost<PhysMem>)
        requires
            parent.wf(old(mem)),
            parent.wf(&mem0),
            child.wf(old(mem)),
            old(mem).frame_count() == mem0.frame_count(),
            forall|q: int| #[trigger] mem0.is_allocated(q) ==> old(mem).is_allocated(q),
            frames_fresh(*child, mem0),
            a < parent.areas().len(),
            a < child.areas().len(),
            child.areas()[a as int].start() == parent.areas()[a as int].start(),
            child.areas()[a as int].end() == parent.areas()[a as int].end(),
        ensures
            final(mem).wf(),
            final(mem).frame_count() == old(mem).frame_count(),
            forall|q: int| #[trigger] final(mem).is_allocated(q) == old(mem).is_allocated(q),
            final(mem).free_count() == old(mem).free_count(),
            parent.wf(final(mem)),
            parent.mapped(final(mem)) == parent.mapped(old(mem)),
            child.wf(final(mem)),
            child.mapped(final(mem)) == child.mapped(old(mem)),
            area_copied(*parent, *old(mem), *child, *final(mem), a as int),
            forall|q: int|
                0 <= q < old(mem).frame_count() && !(exists|p: int|
                    child.areas()[a as int].start() <= p < child.areas()[a as int].end()
                        && child.areas()[a as int].frame_of(p) == q) ==> #[trigger] same_frame(
                    old(mem).ptes(),
                    final(mem).ptes(),
                    q,
                ),
    {
        let (s, e, _perm) = parent.area_bounds(a);
        let ghost m_start = *mem;
        let ghost pa = parent.areas@[a as int];
        let ghost ca = child.areas@[a as int];
        proof {
            parent.page_table.lemma_mem_wf(mem);
        }
        let mut p = s;
        while p < e
            invariant
                s <= p <= e,
                s == pa.start(),
                e == pa.end(),
                pa == parent.areas()[a as int],
                ca == child.areas()[a as int],
                parent.wf(&m_start),
                parent.wf(&mem0),
                child.wf(&m_start),
                m_start == *old(mem),
                mem.wf(),
                mem.frame_count() == m_start.frame_count(),
                m_start.frame_count() == mem0.frame_count(),
                forall|q: int| #[trigger] mem.is_allocated(q) == m_start.is_allocated(q),
                mem.free_count() == m_start.free_count(),
                forall|q: int| #[trigger] mem0.is_allocated(q) ==> m_start.is_allocated(q),
                frames_fresh(*child, mem0),
                a < parent.areas().len(),
                a < child.areas().len(),
                ca.start() == s,
                ca.end() == e,
                forall|r: int, j: int|
                    s <= r < p && 0 <= j < 512 ==> #[trigger] pte_at(mem.ptes(), ca.frame_of(r), j) == pte_at(
                        m_start.ptes(),
                        pa.frame_of(r),
                        j,
                    ),
                forall|q: int|
                    0 <= q < m_start.frame_count() && !(exists|r: int| s <= r < p && ca.frame_of(r) == q)
                        ==> #[trigger] same_frame(m_start.ptes(), mem.ptes(), q),
            decreases e - p,
        {
            let src = parent.area_frame(a, p);
            let dst = child.area_frame(a, p);
            proof {
                parent.lemma_area_page(&mem0, a as int, p as int);
                assert(mem0.is_allocated(pa.frame_of(p as int)));
                assert(!mem0.is_allocated(ca.frame_of(p as int)));
                assert(m_start.is_allocated(src.0 as int));
                assert(m_start.is_allocated(dst.0 as int));
                mem.lemma_allocated_in_range(src.0 as int);
                mem.lemma_allocated_in_range(dst.0 as int);
            }
            let ghost m_pre = *mem;
            mem.copy_frame(src, dst);
            proof {
                assert forall|r: int, j: int|
                    s <= r < p + 1 && 0 <= j < 512 implies #[trigger] pte_at(mem.ptes(), ca.frame_of(r), j)
                        == pte_at(m_start.ptes(), pa.frame_of(r), j) by {
                    if r < p {
                        assert(ca.frames()[r - s] != ca.frames()[p - s]);
                        assert(ca.frame_of(r) != dst.0);
                        child.lemma_area_page(&m_start, a as int, r);
                        assert(m_start.is_allocated(ca.frame_of(r)));
                        m_pre.lemma_allocated_in_range(ca.frame_of(r));
                        assert(same_frame(m_pre.ptes(), mem.ptes(), ca.frame_of(r)));
                    } else {
                        assert(!(exists|r2: int| s <= r2 < p && ca.frame_of(r2) == src.0)) by {
                            if exists|r2: int| s <= r2 < p && ca.frame_of(r2) == src.0 {
                                let r2 = choose|r2: int| s <= r2 < p && ca.frame_of(r2) == src.0;
                                assert(!mem0.is_allocated(ca.frame_of(r2)));
                            }
                        }
                        assert(same_frame(m_start.ptes(), m_pre.ptes(), src.0 as int));
                    }
                }
                assert forall|q: int|
                    0 <= q < m_start.frame_count() && !(exists|r: int| s <= r < p + 1 && ca.frame_of(r) == q)
                        implies #[trigger] same_frame(m_start.ptes(), mem.ptes(), q) by {
                    assert(q != dst.0);
                    assert(same_frame(m_start.ptes(), m_pre.ptes(), q));
                    assert(same_frame(m_pre.ptes(), mem.ptes(), q));
                    assert forall|j: int| 0 <= j < 512 implies #[trigger] pte_at(mem.ptes(), q, j) == pte_at(
                        m_start.ptes(),
                        q,
                        j,
                    ) by {
                        assert(pte_at(mem.ptes(), q, j) == pte_at(m_pre.ptes(), q, j));
                    }
                }
            }
            p = p + 1;
        }
        proof {
            parent.page_table.lemma_mem_wf(&m_start);
            parent.page_table.lemma_mem_wf(&mem0);
            child.page_table.lemma_mem_wf(&m_start);
            assert forall|q: int|
                0 <= q < m_start.frame_count() && #[trigger] parent.table_frames().contains(q) implies same_frame(
                    m_start.ptes(),
                    mem.ptes(),
                    q,
                ) by {
                assert(m_start.is_allocated(q));
                if exists|r: int| s <= r < e && ca.frame_of(r) == q {
                    let r = choose|r: int| s <= r < e && ca.frame_of(r) == q;
                    assert(!mem0.is_allocated(ca.frame_of(r)));
                    assert(mem0.is_allocated(q));
                }
            }
            parent.lemma_wf_kept(&m_start, mem);
            assert forall|q: int|
                0 <= q < m_start.frame_count() && #[trigger] child.table_frames().contains(q) implies same_frame(
                    m_start.ptes(),
                    mem.ptes(),
                    q,
                ) by {
                if exists|r: int| s <= r < e && ca.frame_of(r) == q {
                    let r = choose|r: int| s <= r < e && ca.frame_of(r) == q;
                    child.lemma_area_page(&m_start, a as int, r);
                    assert(ca.frames()[r - s].0 == q);
                }
            }
            child.lemma_wf_kept(&m_start, mem);
        }
    }
}

/// `child` over `m1` is a copy of `parent` over `m0`: the same areas with
/// the same permissions, each page holding what the parent's page held,
/// and the trampoline page mapped to frame `trampoline`.
#[verifier::opaque]
pub open spec fn space_copied(parent: MemorySet, m0: PhysMem, child: MemorySet, m1: PhysMem, trampoline: u64) -> bool {
    &&& child.wf(&m1)
    &&& child.areas().len() == parent.areas().len()
    &&& forall|a: int|
        0 <= a < parent.areas().len() ==> (#[trigger] child.areas()[a]).start() == parent.areas()[a].start()
            && child.areas()[a].end() == parent.areas()[a].end() && child.areas()[a].perm()
            == parent.areas()[a].perm() && area_copied(parent, m0, child, m1, a)
    &&& maps_to(child.mapped(&m1), TRAMPOLINE_VPN as int, trampoline_entry(trampoline))
}

/// The number of pages of `areas`.
pub open spec fn area_pages(areas: Seq<MapArea>) -> int
    decreases areas.len(),
{
    if areas.len() == 0 {
        0
    } else {
        area_pages(areas.drop_last()) + (areas.last().end() - areas.last().start())
    }
}

/// Page counts add up area by area, and a prefix has no more pages than
/// the whole.
proof fn lemma_area_pages_prefix(areas: Seq<MapArea>, k: int)
    requires
        0 <= k <= areas.len(),
        forall|a: int| 0 <= a < areas.len() ==> (#[trigger] areas[a]).start() <= areas[a].end(),
    ensures
        k < areas.len() ==> area_pages(areas.take(k + 1)) == area_pages(areas.take(k)) + (areas[k].end()
            - areas[k].start()),
        0 <= area_pages(areas.take(k)) <= area_pages(areas),
    decreases areas.len() - k,
{
    if k < areas.len() {
        assert(areas.take(k + 1).drop_last() =~= areas.take(k));
        lemma_area_pages_prefix(areas, k + 1);
    } else {
        assert(areas.take(k) =~= areas);
    }
    lemma_area_pages_nonneg(areas.take(k));
}

proof fn lemma_area_pages_nonneg(areas: Seq<MapArea>)
    requires
        forall|a: int| 0 <= a < areas.len() ==> (#[trigger] areas[a]).start() <= areas[a].end(),
    ensures
        area_pages(areas) >= 0,
    decreases areas.len(),
{
    if areas.len() > 0 {
        assert forall|a: int| 0 <= a < areas.drop_last().len() implies (#[trigger] areas.drop_last()[a]).start()
            <= areas.drop_last()[a].end() by {
            assert(areas.drop_last()[a] == areas[a]);
        }
        lemma_area_pages_nonneg(areas.drop_last());
        assert(areas.last() == areas[areas.len() - 1]);
    }
}

/// A frame in use in `mem0` is not one of `ms`'s frames when all of those
/// were free in `mem0`.
pub proof fn lemma_fresh_not_own(ms: MemorySet, mem: PhysMem, mem0: PhysMem, q: int)
    requires
        ms.wf(&mem),
        frames_fresh(ms, mem0),
        mem0.is_allocated(q),
    ensures
        !frame_in_areas(ms.areas(), 0, q),
        !ms.table_frames().contains(q),
{
    if frame_in_areas(ms.areas(), 0, q) {
        let (a, k) = choose|a: int, k: int|
            0 <= a < ms.areas().len() && 0 <= k < ms.areas()[a].frames().len() && (#[trigger] ms.areas()[a].frames()[k]).0 == q;
        let p = ms.areas()[a].start() + k;
        ms.lemma_frames_of(&mem, a, p);
        assert(ms.areas()[a].frame_of(p) == q);
    }
}

impl MemorySet {
    /// The frame of page `p` of area `a` is its data frame of the same
    /// rank.
    proof fn lemma_frames_of(&self, mem: &PhysMem, a: int, p: int)
        requires
            self.wf(mem),
            0 <= a < self.areas().len(),
            self.areas()[a].start() <= p < self.areas()[a].end(),
        ensures
            self.areas()[a].frame_of(p) == self.areas()[a].frames()[p - self.areas()[a].start()].0,
            self.areas()[a].frames().len() == self.areas()[a].end() - self.areas()[a].start(),
    {
        assert(self.areas@[a] == self.areas()[a]);
    }

    /// A copy of the address space `parent` for a forked child: the same
    /// areas with the same permissions, each page in a new frame that holds
    /// what the parent's page holds, and the trampoline page mapped to frame
    /// `trampoline`. The parent, its mappings and the contents of every frame
    /// in use stay. `None`, with every frame taken given back, when frames
    /// run out or the trampoline page is taken.
    #[verifier::spinoff_prover]
    pub fn from_existed_user(parent: &MemorySet, mem: &mut PhysMem, trampoline: PhysPageNum) -> (r: Option<
        MemorySet,
    >)
        requires
            parent.wf(old(mem)),
            trampoline.0 < crate::address::PPN_LIMIT,
        ensures
            final(mem).wf(),
            final(mem).frame_count() == old(mem).frame_count(),
            parent.wf(final(mem)),
            parent.mapped(final(mem)) == parent.mapped(old(mem)),
            forall|q: int| #[trigger] old(mem).is_allocated(q) ==> final(mem).is_allocated(q),
            forall|q: int|
                0 <= q < old(mem).frame_count() && old(mem).is_allocated(q) ==> #[trigger] same_frame(
                    old(mem).ptes(),
                    final(mem).ptes(),
                    q,
                ),
            r matches Some(ms) ==> space_copied(*parent, *old(mem), ms, *final(mem), trampoline.0),
            old(mem).free_count() >= 3 + 3 * area_pages(parent.areas()) && !in_areas(
                parent.areas(),
                0,
                TRAMPOLINE_VPN as int,
            ) ==> r is Some,
    {
        proof {
            assert forall|b: int| 0 <= b < parent.areas().len() implies (#[trigger] parent.areas()[b]).start()
                <= parent.areas()[b].end() by {
                assert(parent.areas@[b] == parent.areas()[b]);
            }
            lemma_area_pages_nonneg(parent.areas());
        }
        if !mem.has_free_frame() {
            return None;
        }
        let ghost mem0 = *mem;
        proof {
            parent.page_table.lemma_mem_wf(mem);
        }
        let mut ms = MemorySet::new_bare(mem);
        proof {
            assert forall|q: int|
                0 <= q < mem0.frame_count() && mem0.is_allocated(q) implies #[trigger] same_frame(
                    mem0.ptes(),
                    mem.ptes(),
                    q,
                ) by {
                assert(q != ms.root());
            }
            assert forall|q: int| #[trigger] mem0.is_allocated(q) implies mem.is_allocated(q) by {
                assert(q != ms.root());
            }
            assert forall|q: int|
                0 <= q < mem0.frame_count() && #[trigger] parent.table_frames().contains(q) implies same_frame(
                    mem0.ptes(),
                    mem.ptes(),
                    q,
                ) by {
                assert(mem0.is_allocated(q));
            }
            parent.lemma_wf_kept(&mem0, mem);
        }
        proof {
            assert forall|b: int| 0 <= b < parent.areas().len() implies (#[trigger] parent.areas()[b]).start()
                <= parent.areas()[b].end() by {
                assert(parent.areas@[b] == parent.areas()[b]);
            }
            assert(parent.areas().take(0) =~= Seq::<MapArea>::empty());
        }
        let n = parent.areas.len();
        let mut a: usize = 0;
        while a < n
            invariant
                forall|b: int| 0 <= b < n ==> (#[trigger] parent.areas()[b]).start() <= parent.areas()[b].end(),
                old(mem).free_count() >= 3 + 3 * area_pages(parent.areas()) ==> mem.free_count() + 1 + 3
                    * area_pages(parent.areas().take(a as int)) >= old(mem).free_count(),
                n == parent.areas().len(),
                a <= n,
                parent.wf(&mem0),
                parent.wf(mem),
                parent.mapped(mem) == parent.mapped(&mem0),
                ms.wf(mem),
                mem.frame_count() == mem0.frame_count(),
                mem0 == *old(mem),
                forall|q: int| #[trigger] mem0.is_allocated(q) ==> mem.is_allocated(q),
                forall|q: int|
                    0 <= q < mem0.frame_count() && mem0.is_allocated(q) ==> #[trigger] same_frame(
                        mem0.ptes(),
                        mem.ptes(),
                        q,
                    ),
                frames_fresh(ms, mem0),
                ms.areas().len() == a,
                forall|b: int|
                    0 <= b < a ==> (#[trigger] ms.areas()[b]).start() == parent.areas()[b].start()
                        && ms.areas()[b].end() == parent.areas()[b].end() && ms.areas()[b].perm()
                        == parent.areas()[b].perm() && area_copied(*parent, mem0, ms, *mem, b),
                forall|p: int|
                    #[trigger] ms.mapped(mem).contains_key(p) ==> exists|b: int|
                        0 <= b < a && (#[trigger] parent.areas()[b]).start() <= p < parent.areas()[b].end(),
            decreases n - a,
        {
            let (s, e, perm) = parent.area_bounds(a);
            proof {
                assert forall|p: int| s <= p < e implies !#[trigger] ms.mapped(mem).contains_key(p) by {
                    if ms.mapped(mem).contains_key(p) {
                        let b = choose|b: int| 0 <= b < a && (#[trigger] parent.areas()[b]).start() <= p < parent.areas()[b].end();
                        parent.lemma_disjoint(mem, b, a as int);
                    }
                }
                assert(s * 4096 <= e * 4096 <= VA_LIMIT) by (nonlinear_arith)
                    requires
                        s <= e <= 0x800_0000,
                ;
            }
            let ghost ms0 = ms;
            let ghost m1 = *mem;
            let start_va = VirtAddr(s * PAGE_BYTES);
            let end_va = VirtAddr(e * PAGE_BYTES);
            proof {
                assert(floor_page(start_va) == s);
                assert(ceil_page(end_va) == e);
            }
            proof {
                lemma_area_pages_prefix(parent.areas(), a as int);
                lemma_area_pages_prefix(parent.areas(), a + 1);
            }
            let ghost free_before = mem.free_count();
            let inserted = ms.insert_framed_area(mem, start_va, end_va, perm);
            proof {
                assert forall|q: int| #[trigger] ms.table_frames().contains(q) implies !mem0.is_allocated(q) by {
                    if !ms0.table_frames().contains(q) {
                        assert(!m1.is_allocated(q));
                    }
                }
                assert forall|q: int|
                    0 <= q < mem0.frame_count() && mem0.is_allocated(q) implies #[trigger] same_frame(
                        mem0.ptes(),
                        mem.ptes(),
                        q,
                    ) by {
                    assert(!ms.table_frames().contains(q));
                    assert(m1.is_allocated(q));
                    assert(same_frame(mem0.ptes(), m1.ptes(), q));
                    assert(same_frame(m1.ptes(), mem.ptes(), q));
                    assert forall|j: int| 0 <= j < 512 implies #[trigger] pte_at(mem.ptes(), q, j) == pte_at(
                        mem0.ptes(),
                        q,
                        j,
                    ) by {
                        assert(pte_at(mem.ptes(), q, j) == pte_at(m1.ptes(), q, j));
                    }
                }
            }
            if inserted.is_none() {
                let ghost m_f = *mem;
                proof {
                    assert(ms.areas() == ms0.areas());
                    assert(frames_fresh(ms, mem0));
                }
                ms.release(mem);
                proof {
                    assert forall|q: int| #[trigger] mem0.is_allocated(q) implies mem.is_allocated(q) by {
                        lemma_fresh_not_own(ms, m_f, mem0, q);
                    }
                    assert forall|q: int|
                        0 <= q < mem0.frame_count() && mem0.is_allocated(q) implies #[trigger] same_frame(
                            mem0.ptes(),
                            mem.ptes(),
                            q,
                        ) by {
                        lemma_fresh_not_own(ms, m_f, mem0, q);
                        assert(same_frame(m_f.ptes(), mem.ptes(), q));
                        assert(same_frame(mem0.ptes(), m_f.ptes(), q));
                        assert forall|j: int| 0 <= j < 512 implies #[trigger] pte_at(mem.ptes(), q, j)
                            == pte_at(mem0.ptes(), q, j) by {
                            assert(pte_at(mem.ptes(), q, j) == pte_at(m_f.ptes(), q, j));
                        }
                    }
                    parent.page_table.lemma_mem_wf(&mem0);
                    parent.lemma_wf_kept(&mem0, mem);
                }
                return None;
            }
            proof {
                assert(area_appended(ms0, m1, ms, *mem, s as int, e as int, perm.value()));
                assert(ms.areas().take(a as int) == ms0.areas());
                assert forall|q: int| #[trigger] mem0.is_allocated(q) implies mem.is_allocated(q) by {
                    assert(m1.is_allocated(q));
                }
                assert forall|b: int, p: int|
                    0 <= b < ms.areas().len() && ms.areas()[b].start() <= p < ms.areas()[b].end()
                        implies !mem0.is_allocated(#[trigger] ms.areas()[b].frame_of(p)) by {
                    if b < a {
                        assert(ms.areas()[b] == ms0.areas()[b]);
                    } else {
                        assert(!m1.is_allocated(ms.areas()[b].frame_of(p)));
                    }
                }
                assert forall|b: int| 0 <= b < a implies area_copied(*parent, mem0, ms, *mem, b) by {
                    assert(ms.areas()[b] == ms0.areas()[b]);
                    assert forall|p: int, j: int|
                        parent.areas()[b].start() <= p < parent.areas()[b].end() && 0 <= j < 512 implies #[trigger] pte_at(
                            mem.ptes(),
                            ms.areas()[b].frame_of(p),
                            j,
                        ) == pte_at(mem0.ptes(), parent.areas()[b].frame_of(p), j) by {
                        let f = ms0.areas()[b].frame_of(p);
                        ms0.lemma_area_page(&m1, b, p);
                        assert(m1.is_allocated(f));
                        m1.lemma_allocated_in_range(f);
                        assert(!ms.table_frames().contains(f));
                        assert(same_frame(m1.ptes(), mem.ptes(), f));
                        assert(pte_at(m1.ptes(), f, j) == pte_at(mem0.ptes(), parent.areas()[b].frame_of(p), j));
                    }
                }
                assert forall|q: int|
                    0 <= q < mem0.frame_count() && #[trigger] parent.table_frames().contains(q) implies same_frame(
                        mem0.ptes(),
                        mem.ptes(),
                        q,
                    ) by {
                    parent.page_table.lemma_mem_wf(&mem0);
                    assert(mem0.is_allocated(q));
                }
                parent.lemma_wf_kept(&mem0, mem);
            }
            let ghost m2 = *mem;
            let ghost ms2 = ms;
            MemorySet::copy_area(parent, &ms, mem, a, Ghost(mem0));
            proof {
                assert forall|b: int| 0 <= b < a + 1 implies area_copied(*parent, mem0, ms, *mem, b) by {
                    assert forall|p: int, j: int|
                        parent.areas()[b].start() <= p < parent.areas()[b].end() && 0 <= j < 512 implies #[trigger] pte_at(
                            mem.ptes(),
                            ms.areas()[b].frame_of(p),
                            j,
                        ) == pte_at(mem0.ptes(), parent.areas()[b].frame_of(p), j) by {
                        let pf = parent.areas()[b].frame_of(p);
                        parent.lemma_area_page(&mem0, b, p);
                        assert(mem0.is_allocated(pf));
                        mem0.lemma_allocated_in_range(pf);
                        assert(same_frame(mem0.ptes(), m2.ptes(), pf));
                        if b < a {
                            assert(ms.areas().take(a as int) == ms0.areas());
                            assert(ms.areas().take(a as int)[b] == ms.areas()[b]);
                            assert(ms.areas()[b].start() == parent.areas()[b].start());
                            assert(ms.areas()[b].end() == parent.areas()[b].end());
                            let f = ms.areas()[b].frame_of(p);
                            ms.lemma_frames_of(&m2, b, p);
                            ms.lemma_area_page(&m2, b, p);
                            m2.lemma_allocated_in_range(f);
                            assert(!(exists|r: int|
                                ms.areas()[a as int].start() <= r < ms.areas()[a as int].end()
                                    && ms.areas()[a as int].frame_of(r) == f)) by {
                                if exists|r: int|
                                    ms.areas()[a as int].start() <= r < ms.areas()[a as int].end()
                                        && ms.areas()[a as int].frame_of(r) == f {
                                    let r = choose|r: int|
                                        ms.areas()[a as int].start() <= r < ms.areas()[a as int].end()
                                            && ms.areas()[a as int].frame_of(r) == f;
                                    ms.lemma_frames_of(&m2, a as int, r);
                                    ms.lemma_distinct_frames(&m2, b, p - ms.areas()[b].start(), a as int, r - ms.areas()[a as int].start());
                                }
                            }
                            assert(same_frame(m2.ptes(), mem.ptes(), f));
                            assert(area_copied(*parent, mem0, ms, m2, b));
                            assert(pte_at(m2.ptes(), f, j) == pte_at(mem0.ptes(), pf, j));
                            assert(pte_at(mem.ptes(), f, j) == pte_at(m2.ptes(), f, j));
                        } else {
                            assert(b == a);
                            assert(area_copied(*parent, m2, ms, *mem, a as int));
                            assert(pte_at(mem.ptes(), ms.areas()[b].frame_of(p), j) == pte_at(m2.ptes(), pf, j));
                            assert(pte_at(m2.ptes(), pf, j) == pte_at(mem0.ptes(), pf, j));
                        }
                    }
                }
                assert forall|q: int|
                    0 <= q < mem0.frame_count() && mem0.is_allocated(q) implies #[trigger] same_frame(
                        mem0.ptes(),
                        mem.ptes(),
                        q,
                    ) by {
                    assert(!(exists|r: int|
                        ms.areas()[a as int].start() <= r < ms.areas()[a as int].end()
                            && ms.areas()[a as int].frame_of(r) == q)) by {
                        if exists|r: int|
                            ms.areas()[a as int].start() <= r < ms.areas()[a as int].end()
                                && ms.areas()[a as int].frame_of(r) == q {
                            let r = choose|r: int|
                                ms.areas()[a as int].start() <= r < ms.areas()[a as int].end()
                                    && ms.areas()[a as int].frame_of(r) == q;
                            assert(!mem0.is_allocated(ms.areas()[a as int].frame_of(r)));
                        }
                    }
                    assert(same_frame(m2.ptes(), mem.ptes(), q));
                    assert(same_frame(mem0.ptes(), m2.ptes(), q));
                    assert forall|j: int| 0 <= j < 512 implies #[trigger] pte_at(mem.ptes(), q, j) == pte_at(
                        mem0.ptes(),
                        q,
                        j,
                    ) by {
                        assert(pte_at(mem.ptes(), q, j) == pte_at(m2.ptes(), q, j));
                        assert(pte_at(m2.ptes(), q, j) == pte_at(mem0.ptes(), q, j));
                    }
                }
                assert forall|b: int|
                    0 <= b < a + 1 implies (#[trigger] ms.areas()[b]).start() == parent.areas()[b].start()
                        && ms.areas()[b].end() == parent.areas()[b].end() && ms.areas()[b].perm()
                        == parent.areas()[b].perm() by {
                    if b < a {
                        assert(ms.areas().take(a as int)[b] == ms.areas()[b]);
                        assert(ms0.areas()[b] == ms.areas()[b]);
                    }
                }
                assert forall|p: int| #[trigger] ms.mapped(mem).contains_key(p) implies exists|b: int|
                    0 <= b < a + 1 && (#[trigger] parent.areas()[b]).start() <= p < parent.areas()[b].end() by {
                    if p < s || p >= e {
                        assert(ms0.mapped(&m1).contains_key(p));
                        let b = choose|b: int| 0 <= b < a && (#[trigger] parent.areas()[b]).start() <= p < parent.areas()[b].end();
                    } else {
                        assert(parent.areas()[a as int].start() <= p < parent.areas()[a as int].end());
                    }
                }
            }
            a = a + 1;
        }
        let ghost m3 = *mem;
        let ghost ms3 = ms;
        proof {
            assert(parent.areas().take(n as int) =~= parent.areas());
            if ms.mapped(mem).contains_key(TRAMPOLINE_VPN as int) {
                let b = choose|b: int|
                    0 <= b < n && (#[trigger] parent.areas()[b]).start() <= (TRAMPOLINE_VPN as int)
                        < parent.areas()[b].end();
                assert(in_areas(parent.areas(), 0, TRAMPOLINE_VPN as int));
            }
        }
        let mapped = ms.map_trampoline(mem, trampoline);
        proof {
            assert forall|q: int| #[trigger] ms.table_frames().contains(q) implies !mem0.is_allocated(q) by {
                if !ms3.table_frames().contains(q) {
                    assert(!m3.is_allocated(q));
                }
            }
            assert forall|q: int|
                0 <= q < mem0.frame_count() && mem0.is_allocated(q) implies #[trigger] same_frame(
                    mem0.ptes(),
                    mem.ptes(),
                    q,
                ) by {
                assert(!ms.table_frames().contains(q));
                assert(same_frame(mem0.ptes(), m3.ptes(), q));
                assert(same_frame(m3.ptes(), mem.ptes(), q));
                assert forall|j: int| 0 <= j < 512 implies #[trigger] pte_at(mem.ptes(), q, j) == pte_at(
                    mem0.ptes(),
                    q,
                    j,
                ) by {
                    assert(pte_at(mem.ptes(), q, j) == pte_at(m3.ptes(), q, j));
                }
            }
            assert forall|q: int| #[trigger] mem0.is_allocated(q) implies mem.is_allocated(q) by {
                assert(m3.is_allocated(q));
            }
        }
        if mapped.is_none() {
            let ghost m_f = *mem;
            ms.release(mem);
            proof {
                assert forall|q: int| #[trigger] mem0.is_allocated(q) implies mem.is_allocated(q) by {
                    lemma_fresh_not_own(ms, m_f, mem0, q);
                }
                assert forall|q: int|
                    0 <= q < mem0.frame_count() && mem0.is_allocated(q) implies #[trigger] same_frame(
                        mem0.ptes(),
                        mem.ptes(),
                        q,
                    ) by {
                    lemma_fresh_not_own(ms, m_f, mem0, q);
                    assert(same_frame(m_f.ptes(), mem.ptes(), q));
                    assert(same_frame(mem0.ptes(), m_f.ptes(), q));
                    assert forall|j: int| 0 <= j < 512 implies #[trigger] pte_at(mem.ptes(), q, j)
                        == pte_at(mem0.ptes(), q, j) by {
                        assert(pte_at(mem.ptes(), q, j) == pte_at(m_f.ptes(), q, j));
                    }
                }
                parent.page_table.lemma_mem_wf(&mem0);
                parent.lemma_wf_kept(&mem0, mem);
            }
            return None;
        }
        proof {
            assert forall|b: int| 0 <= b < n implies area_copied(*parent, mem0, ms, *mem, b) by {
                assert(ms.areas() == ms3.areas());
                assert forall|p: int, j: int|
                    parent.areas()[b].start() <= p < parent.areas()[b].end() && 0 <= j < 512 implies #[trigger] pte_at(
                        mem.ptes(),
                        ms.areas()[b].frame_of(p),
                        j,
                    ) == pte_at(mem0.ptes(), parent.areas()[b].frame_of(p), j) by {
                    let f = ms.areas()[b].frame_of(p);
                    ms3.lemma_area_page(&m3, b, p);
                    ms3.lemma_frames_of(&m3, b, p);
                    m3.lemma_allocated_in_range(f);
                    assert(!ms.table_frames().contains(f)) by {
                        if ms.table_frames().contains(f) && !ms3.table_frames().contains(f) {
                            assert(!m3.is_allocated(f));
                        }
                    }
                    assert(same_frame(m3.ptes(), mem.ptes(), f));
                }
            }
            parent.page_table.lemma_mem_wf(&mem0);
            parent.lemma_wf_kept(&mem0, mem);
        }
        proof {
            reveal(space_copied);
        }
        Some(ms)
    }

    /// Distinct ranks of two framed areas name distinct data frames.
    proof fn lemma_distinct_frames(&self, mem: &PhysMem, a: int, k: int, b: int, l: int)
        requires
            self.wf(mem),
            0 <= a < self.areas().len(),
            0 <= b < self.areas().len(),
            0 <= k < self.areas()[a].frames().len(),
            0 <= l < self.areas()[b].frames().len(),
            a != b || k != l,
        ensures
            self.areas()[a].frames()[k] != self.areas()[b].frames()[l],
    {
        assert(self.areas@[a] == self.areas()[a]);
        assert(self.areas@[b] == self.areas()[b]);
    }
}

impl MemorySet {
    /// An address space stays well formed, with the same mappings, when no
    /// frame in use is given back and every frame in use keeps its
    /// contents.
    pub proof fn lemma_wf_kept_by(&self, m0: &PhysMem, m1: &PhysMem)
        requires
            self.wf(m0),
            m1.wf(),
            m1.frame_count() == m0.frame_count(),
            forall|q: int| #[trigger] m0.is_allocated(q) ==> m1.is_allocated(q),
            forall|q: int|
                0 <= q < m0.frame_count() && m0.is_allocated(q) ==> #[trigger] same_frame(m0.ptes(), m1.ptes(), q),
        ensures
            self.wf(m1),
            self.mapped(m1) == self.mapped(m0),
    {
        self.page_table.lemma_mem_wf(m0);
        assert forall|q: int|
            0 <= q < m0.frame_count() && #[trigger] self.table_frames().contains(q) implies same_frame(
                m0.ptes(),
                m1.ptes(),
                q,
            ) by {
            assert(m0.is_allocated(q));
        }
        self.lemma_wf_kept(m0, m1);
    }
}

impl MemorySet {
    /// Every frame of a well-formed address space is in use.
    pub proof fn lemma_own_frames_allocated(&self, mem: &PhysMem, q: int)
        requires
            self.wf(mem),
            frame_in_areas(self.areas(), 0, q) || self.table_frames().contains(q),
        ensures
            mem.is_allocated(q),
    {
        self.page_table.lemma_mem_wf(mem);
        if frame_in_areas(self.areas(), 0, q) {
            let (a, k) = choose|a: int, k: int|
                0 <= a < self.areas().len() && 0 <= k < self.areas()[a].frames().len() && (#[trigger] self.areas()[a].frames()[k]).0 == q;
            assert(self.areas@[a] == self.areas()[a]);
        }
    }
}

impl MemorySet {
    /// An address space stays well formed, with the same mappings, while
    /// its page-table frames keep their contents and its own frames stay in
    /// use.
    pub proof fn lemma_wf_kept_own(&self, m1: &PhysMem, m2: &PhysMem)
        requires
            self.wf(m1),
            m2.wf(),
            m2.frame_count() == m1.frame_count(),
            forall|q: int|
                0 <= q < m1.frame_count() && #[trigger] self.table_frames().contains(q) ==> same_frame(
                    m1.ptes(),
                    m2.ptes(),
                    q,
                ),
            forall|q: int|
                frame_in_areas(self.areas(), 0, q) || self.table_frames().contains(q) ==> #[trigger] m2.is_allocated(q),
        ensures
            self.wf(m2),
            self.mapped(m2) == self.mapped(m1),
    {
        self.page_table.lemma_mem_wf(m1);
        assert forall|f: int, i: int|
            self.page_table.owned().contains(f) && 0 <= i < 512 implies #[trigger] pte_at(m2.ptes(), f, i)
                == pte_at(m1.ptes(), f, i) by {
            assert(self.table_frames().contains(f));
            assert(same_frame(m1.ptes(), m2.ptes(), f));
        }
        assert forall|f: int| #[trigger] self.page_table.owned().contains(f) implies m2.is_allocated(f) by {
            assert(self.table_frames().contains(f));
        }
        self.page_table.lemma_wf_other_frames(m1, m2);
        let areas = self.areas@;
        assert forall|a: int, k: int|
            0 <= a < areas.len() && areas[a].framed() && 0 <= k < areas[a].frames().len() implies {
            let f = (#[trigger] areas[a].frames()[k]).0 as int;
            &&& m2.is_allocated(f)
            &&& !self.page_table.owned().contains(f)
        } by {
            let f = areas[a].frames()[k].0 as int;
            assert(areas[a] == self.areas()[a]);
            assert(frame_in_areas(self.areas(), 0, f));
        }
    }
}

/// The frame that page `p` of `ms` is mapped to.
pub open spec fn page_frame(ms: MemorySet, mem: PhysMem, p: int) -> int {
    pte_ppn(ms.mapped(&mem)[p].bits) as int
}

/// The byte at virtual address `a` of `ms`.
pub open spec fn user_byte(ms: MemorySet, mem: PhysMem, a: int) -> u8 {
    crate::page_table::frame_byte(mem.ptes(), page_frame(ms, mem, a / 4096), a % 4096)
}

/// Every byte of `[addr, addr + len)` lies in a page of an area of `ms`.
pub open spec fn range_in_areas(ms: MemorySet, addr: int, len: int) -> bool {
    forall|a: int| addr <= a < addr + len ==> #[trigger] in_areas(ms.areas(), 0, a / 4096)
}

impl MemorySet {
    /// A page of an area is mapped to the area's data frame for it.
    pub proof fn lemma_page_frame(&self, mem: &PhysMem, p: int)
        requires
            self.wf(mem),
            in_areas(self.areas(), 0, p),
        ensures
            self.mapped(mem).contains_key(p),
            frame_in_areas(self.areas(), 0, page_frame(*self, *mem, p)),
            mem.is_allocated(page_frame(*self, *mem, p)),
            !self.table_frames().contains(page_frame(*self, *mem, p)),
            0 <= page_frame(*self, *mem, p) < mem.frame_count(),
            exists|a: int|
                0 <= a < self.areas().len() && (#[trigger] self.areas()[a]).start() <= p < self.areas()[a].end()
                    && page_frame(*self, *mem, p) == self.areas()[a].frame_of(p),
    {
        let a = choose|a: int| 0 <= a < self.areas().len() && (#[trigger] self.areas()[a]).start() <= p < self.areas()[a].end();
        self.lemma_area_page(mem, a, p);
        self.lemma_frames_of(mem, a, p);
        let f = self.areas()[a].frame_of(p);
        assert(self.areas@[a] == self.areas()[a]);
        mem.lemma_allocated_in_range(f);
        mem.lemma_frame_limit();
        crate::page_table::lemma_pte_bits(f as u64, self.areas()[a].perm() | PTEFlags::V);
        assert(frame_in_areas(self.areas(), 0, f)) by {
            assert(self.areas()[a].frames()[p - self.areas()[a].start()].0 == f);
        }
    }

    /// Distinct pages of areas are mapped to distinct frames.
    pub proof fn lemma_page_frame_inj(&self, mem: &PhysMem, p1: int, p2: int)
        requires
            self.wf(mem),
            in_areas(self.areas(), 0, p1),
            in_areas(self.areas(), 0, p2),
            p1 != p2,
        ensures
            page_frame(*self, *mem, p1) != page_frame(*self, *mem, p2),
    {
        self.lemma_page_frame(mem, p1);
        self.lemma_page_frame(mem, p2);
        let a1 = choose|a: int|
            0 <= a < self.areas().len() && (#[trigger] self.areas()[a]).start() <= p1 < self.areas()[a].end()
                && page_frame(*self, *mem, p1) == self.areas()[a].frame_of(p1);
        let a2 = choose|a: int|
            0 <= a < self.areas().len() && (#[trigger] self.areas()[a]).start() <= p2 < self.areas()[a].end()
                && page_frame(*self, *mem, p2) == self.areas()[a].frame_of(p2);
        self.lemma_frames_of(mem, a1, p1);
        self.lemma_frames_of(mem, a2, p2);
        let k1 = p1 - self.areas()[a1].start();
        let k2 = p2 - self.areas()[a2].start();
        if a1 == a2 {
            assert(k1 != k2);
        }
        self.lemma_distinct_frames(mem, a1, k1, a2, k2);
    }

    /// Store `bytes` at virtual addresses `[addr, addr + len)`, all in pages
    /// of areas; every other byte of the space and every frame that is not
    /// a data frame of the space keep their contents.
    pub fn write_user_bytes(&self, mem: &mut PhysMem, addr: u64, bytes: &Vec<u8>)
        requires
            self.wf(old(mem)),
            addr + bytes@.len() <= VA_LIMIT,
            range_in_areas(*self, addr as int, bytes@.len() as int),
        ensures
            self.wf(final(mem)),
            self.mapped(final(mem)) == self.mapped(old(mem)),
            final(mem).frame_count() == old(mem).frame_count(),
            final(mem).free_count() == old(mem).free_count(),
            forall|q: int| #[trigger] final(mem).is_allocated(q) == old(mem).is_allocated(q),
            forall|k: int| 0 <= k < bytes@.len() ==> #[trigger] user_byte(*self, *final(mem), addr + k) == bytes@[k],
            forall|a: int|
                0 <= a && in_areas(self.areas(), 0, a / 4096) && !(addr <= a < addr + bytes@.len()) ==> #[trigger] user_byte(
                    *self,
                    *final(mem),
                    a,
                ) == user_byte(*self, *old(mem), a),
            forall|q: int|
                0 <= q < old(mem).frame_count() && !frame_in_areas(self.areas(), 0, q) ==> #[trigger] same_frame(
                    old(mem).ptes(),
                    final(mem).ptes(),
                    q,
                ),
    {
        let ghost m0 = *mem;
        let n = bytes.len();
        let mut k: usize = 0;
        while k < n
            invariant
                n == bytes@.len(),
                k <= n,
                addr + n <= VA_LIMIT,
                range_in_areas(*self, addr as int, n as int),
                self.wf(mem),
                self.wf(&m0),
                m0 == *old(mem),
                self.mapped(mem) == self.mapped(&m0),
                mem.frame_count() == m0.frame_count(),
                mem.free_count() == m0.free_count(),
                forall|q: int| #[trigger] mem.is_allocated(q) == m0.is_allocated(q),
                forall|j: int| 0 <= j < k ==> #[trigger] user_byte(*self, *mem, addr + j) == bytes@[j],
                forall|a: int|
                    0 <= a && in_areas(self.areas(), 0, a / 4096) && !(addr <= a < addr + k) ==> #[trigger] user_byte(
                        *self,
                        *mem,
                        a,
                    ) == user_byte(*self, m0, a),
                forall|q: int|
                    0 <= q < m0.frame_count() && !frame_in_areas(self.areas(), 0, q) ==> #[trigger] same_frame(
                        m0.ptes(),
                        mem.ptes(),
                        q,
                    ),
            decreases n - k,
        {
            let a = addr + k as u64;
            let page = a / 4096;
            proof {
                assert(in_areas(self.areas(), 0, a as int / 4096));
                self.lemma_page_frame(mem, page as int);
                self.lemma_walks(mem, page as int);
            }
            let e = match self.translate(mem, VirtPageNum(page)) {
                Some(e) => e,
                None => {
                    return;
                },
            };
            let f = e.ppn();
            proof {
                assert(f.0 == page_frame(*self, *mem, page as int));
            }
            let ghost m1 = *mem;
            mem.write_byte(f, (a % 4096) as usize, bytes[k]);
            proof {
                let fr = f.0 as int;
                assert forall|q: int|
                    0 <= q < m0.frame_count() && #[trigger] self.table_frames().contains(q) implies same_frame(
                    m1.ptes(),
                    mem.ptes(),
                    q,
                ) by {
                    assert(q != fr);
                }
                self.lemma_wf_kept(&m1, mem);
                assert forall|j: int| 0 <= j < k + 1 implies #[trigger] user_byte(*self, *mem, addr + j) == bytes@[j] by {
                    let aj = addr + j;
                    let pj = aj / 4096;
                    assert(in_areas(self.areas(), 0, pj));
                    self.lemma_page_frame(&m1, pj);
                    let fj = page_frame(*self, m1, pj);
                    assert(page_frame(*self, *mem, pj) == fj);
                    if j == k {
                        assert(aj == a);
                        assert(fj == fr);
                        assert(crate::page_table::frame_byte(mem.ptes(), fr, (a % 4096) as int) == bytes@[k as int]);
                    } else if pj == page {
                        assert(fj == fr);
                        assert(aj % 4096 != a % 4096);
                        assert(crate::page_table::frame_byte(mem.ptes(), fr, aj % 4096) == crate::page_table::frame_byte(
                            m1.ptes(),
                            fr,
                            aj % 4096,
                        ));
                        assert(user_byte(*self, m1, aj) == bytes@[j]);
                    } else {
                        self.lemma_page_frame_inj(&m1, pj, page as int);
                        assert(same_frame(m1.ptes(), mem.ptes(), fj));
                        assert(pte_at(mem.ptes(), fj, (aj % 4096) / 8) == pte_at(m1.ptes(), fj, (aj % 4096) / 8));
                        assert(user_byte(*self, m1, aj) == bytes@[j]);
                    }
                }
                assert forall|b: int|
                    0 <= b && in_areas(self.areas(), 0, b / 4096) && !(addr <= b < addr + k + 1) implies #[trigger] user_byte(
                        *self,
                        *mem,
                        b,
                    ) == user_byte(*self, m0, b) by {
                    let pb = b / 4096;
                    self.lemma_page_frame(&m1, pb);
                    let fb = page_frame(*self, m1, pb);
                    assert(page_frame(*self, *mem, pb) == fb);
                    assert(user_byte(*self, m1, b) == user_byte(*self, m0, b));
                    if pb == page {
                        assert(fb == fr);
                        assert(b % 4096 != a % 4096);
                        assert(crate::page_table::frame_byte(mem.ptes(), fr, b % 4096) == crate::page_table::frame_byte(
                            m1.ptes(),
                            fr,
                            b % 4096,
                        ));
                    } else {
                        self.lemma_page_frame_inj(&m1, pb, page as int);
                        assert(same_frame(m1.ptes(), mem.ptes(), fb));
                        assert(pte_at(mem.ptes(), fb, (b % 4096) / 8) == pte_at(m1.ptes(), fb, (b % 4096) / 8));
                    }
                }
                assert forall|q: int|
                    0 <= q < m0.frame_count() && !frame_in_areas(self.areas(), 0, q) implies #[trigger] same_frame(
                    m0.ptes(),
                    mem.ptes(),
                    q,
                ) by {
                    assert(q != fr);
                    assert(same_frame(m1.ptes(), mem.ptes(), q));
                    assert(same_frame(m0.ptes(), m1.ptes(), q));
                    assert forall|j: int| 0 <= j < 512 implies #[trigger] pte_at(mem.ptes(), q, j) == pte_at(
                        m0.ptes(),
                        q,
                        j,
                    ) by {
                        assert(pte_at(mem.ptes(), q, j) == pte_at(m1.ptes(), q, j));
                    }
                }
            }
            k = k + 1;
        }
    }
}

impl MemorySet {
    /// Whether page `p` lies in one of the areas.
    fn page_in_areas(&self, p: u64) -> (r: bool)
        ensures
            r == in_areas(self.areas(), 0, p as int),
    {
        let mut i: usize = 0;
        while i < self.areas.len()
            invariant
                i <= self.areas@.len(),
                forall|a: int| 0 <= a < i ==> !((#[trigger] self.areas()[a]).start() <= p < self.areas()[a].end()),
            decreases self.areas@.len() - i,
        {
            let (s, e, _) = self.area_bounds(i);
            if s <= p && p < e {
                return true;
            }
            i = i + 1;
        }
        false
    }

    /// Whether every byte of `[addr, addr + len)` lies in a page of an area.
    pub fn covers(&self, addr: u64, len: u64) -> (r: bool)
        requires
            addr + len <= u64::MAX,
        ensures
            r == range_in_areas(*self, addr as int, len as int),
    {
        let mut k: u64 = 0;
        while k < len
            invariant
                k <= len,
                addr + len <= u64::MAX,
                forall|a: int| addr <= a < addr + k ==> #[trigger] in_areas(self.areas(), 0, a / 4096),
            decreases len - k,
        {
            if !self.page_in_areas((addr + k) / 4096) {
                assert(!in_areas(self.areas(), 0, (addr + k) as int / 4096));
                return false;
            }
            k = k + 1;
        }
        true
    }

    /// The bytes at virtual addresses `[addr, addr + len)`, each in a page of
    /// an area.
    pub fn read_user_bytes(&self, mem: &PhysMem, addr: u64, len: u64) -> (r: Vec<u8>)
        requires
            self.wf(mem),
            addr + len <= VA_LIMIT,
            range_in_areas(*self, addr as int, len as int),
        ensures
            r@.len() == len,
            forall|k: int| 0 <= k < len ==> #[trigger] r@[k] == user_byte(*self, *mem, addr + k),
    {
        let mut out: Vec<u8> = Vec::new();
        let mut k: u64 = 0;
        while k < len
            invariant
                k <= len,
                addr + len <= VA_LIMIT,
                self.wf(mem),
                range_in_areas(*self, addr as int, len as int),
                out@.len() == k,
                forall|j: int| 0 <= j < k ==> #[trigger] out@[j] == user_byte(*self, *mem, addr + j),
            decreases len - k,
        {
            let a = addr + k;
            let page = a / 4096;
            proof {
                assert(in_areas(self.areas(), 0, a as int / 4096));
                self.lemma_page_frame(mem, page as int);
                self.lemma_walks(mem, page as int);
            }
            let e = match self.translate(mem, VirtPageNum(page)) {
                Some(e) => e,
                None => {
                    proof {
                        assert(false);
                    }
                    return out;
                },
            };
            let f = e.ppn();
            proof {
                assert(f.0 == page_frame(*self, *mem, page as int));
            }
            let o = (a % 4096) as usize;
            let w = mem.read(f, o / 8);
            let b = ((w.bits >> (((o % 8) * 8) as u64)) & 0xffu64) as u8;
            proof {
                assert(b == crate::page_table::frame_byte(mem.ptes(), f.0 as int, o as int));
            }
            out.push(b);
            k = k + 1;
        }
        out
    }
}

/// Program header `j` of `elf`, a loadable segment, has its file bytes at
/// its virtual address in `ms`, followed by zero bytes up to its size in
/// memory.
pub open spec fn segment_loaded(ms: MemorySet, mem: PhysMem, elf: Seq<u8>, j: int) -> bool {
    forall|o: int|
        0 <= o < crate::elf::p_memsz(elf, j) ==> #[trigger] user_byte(ms, mem, crate::elf::p_vaddr(elf, j) + o)
            == if o < crate::elf::p_filesz(elf, j) {
            elf[crate::elf::p_offset(elf, j) + o]
        } else {
            0u8
        }
}

/// The bytes in the areas of `ms0` stay when the mappings of `ms0` stay,
/// the frames in use keep their contents unless they became page-table
/// frames, and new page-table frames were free.
pub proof fn lemma_user_bytes_kept(ms0: MemorySet, m0: PhysMem, ms1: MemorySet, m1: PhysMem)
    requires
        ms0.wf(&m0),
        m1.frame_count() == m0.frame_count(),
        forall|p: int|
            #[trigger] ms0.mapped(&m0).contains_key(p) ==> ms1.mapped(&m1).contains_key(p) && ms1.mapped(
                &m1,
            )[p] == ms0.mapped(&m0)[p],
        forall|q: int|
            0 <= q < m0.frame_count() && m0.is_allocated(q) && !ms1.table_frames().contains(q)
                ==> #[trigger] same_frame(m0.ptes(), m1.ptes(), q),
        forall|q: int|
            #[trigger] ms1.table_frames().contains(q) && !ms0.table_frames().contains(q) ==> !m0.is_allocated(q),
    ensures
        forall|a: int|
            0 <= a && #[trigger] in_areas(ms0.areas(), 0, a / 4096) ==> user_byte(ms1, m1, a) == user_byte(
                ms0,
                m0,
                a,
            ),
{
    assert forall|a: int| 0 <= a && #[trigger] in_areas(ms0.areas(), 0, a / 4096) implies user_byte(ms1, m1, a)
        == user_byte(ms0, m0, a) by {
        let p = a / 4096;
        ms0.lemma_page_frame(&m0, p);
        let f = page_frame(ms0, m0, p);
        assert(page_frame(ms1, m1, p) == f);
        assert(!ms1.table_frames().contains(f));
        assert(same_frame(m0.ptes(), m1.ptes(), f));
        assert(pte_at(m1.ptes(), f, (a % 4096) / 8) == pte_at(m0.ptes(), f, (a % 4096) / 8));
    }
}

/// Each loadable segment among the first `i` program headers of `elf` is
/// loaded into `ms` and lies in its areas.
pub open spec fn segments_loaded(ms: MemorySet, mem: PhysMem, elf: Seq<u8>, i: int) -> bool {
    forall|j: int|
        #![trigger segment_loaded(ms, mem, elf, j)]
        0 <= j < i && crate::elf::p_type(elf, j) == crate::elf::PT_LOAD ==> segment_loaded(ms, mem, elf, j)
            && segment_in_areas(ms, elf, j)
}

/// The loaded segments of `ms` stay loaded when its mappings and the
/// contents of its data frames stay.
pub proof fn lemma_loaded_same_space(ms: MemorySet, m0: PhysMem, m1: PhysMem, elf: Seq<u8>, n: int)
    requires
        ms.wf(&m0),
        ms.mapped(&m1) == ms.mapped(&m0),
        forall|q: int| frame_in_areas(ms.areas(), 0, q) ==> #[trigger] same_frame(m0.ptes(), m1.ptes(), q),
        segments_loaded(ms, m0, elf, n),
    ensures
        segments_loaded(ms, m1, elf, n),
{
    assert forall|j: int|
        #![trigger segment_loaded(ms, m1, elf, j)]
        0 <= j < n && crate::elf::p_type(elf, j) == crate::elf::PT_LOAD implies segment_loaded(ms, m1, elf, j)
            && segment_in_areas(ms, elf, j) by {
        assert(segment_loaded(ms, m0, elf, j));
        crate::elf::lemma_field_nonneg(elf, j);
        assert forall|o: int| 0 <= o < crate::elf::p_memsz(elf, j) implies #[trigger] user_byte(
            ms,
            m1,
            crate::elf::p_vaddr(elf, j) + o,
        ) == user_byte(ms, m0, crate::elf::p_vaddr(elf, j) + o) by {
            let a = crate::elf::p_vaddr(elf, j) + o;
            assert(in_areas(ms.areas(), 0, a / 4096));
            ms.lemma_page_frame(&m0, a / 4096);
            let f = page_frame(ms, m0, a / 4096);
            assert(same_frame(m0.ptes(), m1.ptes(), f));
            assert(pte_at(m1.ptes(), f, (a % 4096) / 8) == pte_at(m0.ptes(), f, (a % 4096) / 8));
        }
    }
}

/// Every byte of loadable segment `j` of `elf` lies in a page of an area
/// of `ms`.
pub open spec fn segment_in_areas(ms: MemorySet, elf: Seq<u8>, j: int) -> bool {
    forall|o: int|
        0 <= o < crate::elf::p_memsz(elf, j) ==> #[trigger] in_areas(
            ms.areas(),
            0,
            (crate::elf::p_vaddr(elf, j) + o) / 4096,
        )
}

/// The segments among the first `i` headers that are loaded into `ms0`
/// stay loaded when `ms0` grows into `ms1` keeping its mappings and the
/// contents of its frames.
proof fn lemma_loaded_kept(ms0: MemorySet, m0: PhysMem, ms1: MemorySet, m1: PhysMem, elf: Seq<u8>, i: int)
    requires
        ms0.wf(&m0),
        m1.frame_count() == m0.frame_count(),
        forall|p: int|
            #[trigger] ms0.mapped(&m0).contains_key(p) ==> ms1.mapped(&m1).contains_key(p) && ms1.mapped(
                &m1,
            )[p] == ms0.mapped(&m0)[p],
        forall|q: int|
            0 <= q < m0.frame_count() && m0.is_allocated(q) && !ms1.table_frames().contains(q)
                ==> #[trigger] same_frame(m0.ptes(), m1.ptes(), q),
        forall|q: int|
            #[trigger] ms1.table_frames().contains(q) && !ms0.table_frames().contains(q) ==> !m0.is_allocated(q),
        ms1.areas().len() >= ms0.areas().len(),
        ms1.areas().take(ms0.areas().len() as int) == ms0.areas(),
        segments_loaded(ms0, m0, elf, i),
    ensures
        segments_loaded(ms1, m1, elf, i),
{
    lemma_user_bytes_kept(ms0, m0, ms1, m1);
    assert forall|j: int|
        #![trigger segment_loaded(ms1, m1, elf, j)]
        0 <= j < i && crate::elf::p_type(elf, j) == crate::elf::PT_LOAD implies segment_loaded(ms1, m1, elf, j)
            && segment_in_areas(ms1, elf, j) by {
        assert(0 <= j < i);
        assert(crate::elf::p_type(elf, j) == crate::elf::PT_LOAD);
        assert(segment_loaded(ms0, m0, elf, j));
        assert(segment_in_areas(ms0, elf, j));
        crate::elf::lemma_field_nonneg(elf, j);
        assert forall|o: int| 0 <= o < crate::elf::p_memsz(elf, j) implies #[trigger] in_areas(
            ms1.areas(),
            0,
            (crate::elf::p_vaddr(elf, j) + o) / 4096,
        ) by {
            let p = (crate::elf::p_vaddr(elf, j) + o) / 4096;
            assert(in_areas(ms0.areas(), 0, p));
            let k = choose|k: int| 0 <= k < ms0.areas().len() && (#[trigger] ms0.areas()[k]).start() <= p < ms0.areas()[k].end();
            assert(ms1.areas().take(ms0.areas().len() as int)[k] == ms1.areas()[k]);
        }
        assert forall|o: int| 0 <= o < crate::elf::p_memsz(elf, j) implies #[trigger] user_byte(
            ms1,
            m1,
            crate::elf::p_vaddr(elf, j) + o,
        ) == user_byte(ms0, m0, crate::elf::p_vaddr(elf, j) + o) by {
            assert(in_areas(ms0.areas(), 0, (crate::elf::p_vaddr(elf, j) + o) / 4096));
        }
    }
}

impl MemorySet {
    /// Copy the file bytes of loadable segment `i` of `elf`, whose area is
    /// area `m`, freshly zeroed, to the segment's virtual address.
    #[verifier::spinoff_prover]
    fn copy_segment(&self, mem: &mut PhysMem, elf: &Vec<u8>, base: usize, Ghost(i): Ghost<int>, Ghost(m): Ghost<int>)
        requires
            self.wf(old(mem)),
            crate::elf::valid_elf(elf@),
            0 <= i < crate::elf::e_phnum(elf@),
            crate::elf::p_type(elf@, i) == crate::elf::PT_LOAD,
            base == crate::elf::ph_at(elf@, i),
            base + 56 <= elf@.len(),
            0 <= m < self.areas().len(),
            self.areas()[m].start() == crate::elf::p_vaddr(elf@, i) / 4096,
            self.areas()[m].end() == ceil_page(
                VirtAddr((crate::elf::p_vaddr(elf@, i) + crate::elf::p_memsz(elf@, i)) as u64),
            ),
            forall|p: int|
                self.areas()[m].start() <= p < self.areas()[m].end() ==> frame_zeroed(
                    old(mem).ptes(),
                    #[trigger] self.areas()[m].frame_of(p),
                ),
        ensures
            self.wf(final(mem)),
            self.mapped(final(mem)) == self.mapped(old(mem)),
            final(mem).frame_count() == old(mem).frame_count(),
            final(mem).free_count() == old(mem).free_count(),
            forall|q: int| #[trigger] final(mem).is_allocated(q) == old(mem).is_allocated(q),
            forall|q: int|
                0 <= q < old(mem).frame_count() && !frame_in_areas(self.areas(), 0, q) ==> #[trigger] same_frame(
                    old(mem).ptes(),
                    final(mem).ptes(),
                    q,
                ),
            forall|a: int|
                0 <= a && #[trigger] in_areas(self.areas().take(m), 0, a / 4096) ==> user_byte(*self, *final(mem), a)
                    == user_byte(*self, *old(mem), a),
            segment_loaded(*self, *final(mem), elf@, i),
            segment_in_areas(*self, elf@, i),
    {
        let ghost vaddr = crate::elf::p_vaddr(elf@, i);
        let ghost memsz = crate::elf::p_memsz(elf@, i);
        assert(crate::elf::load_ok(elf@, i));
        let len = elf.len();
        let vaddr_x = crate::elf::read_le(elf, base + 16, 8);
        let offset = crate::elf::read_le(elf, base + 8, 8) as usize;
        let filesz = crate::elf::read_le(elf, base + 32, 8) as usize;
        let mut data: Vec<u8> = Vec::new();
        let mut o: usize = 0;
        while o < filesz
            invariant
                o <= filesz,
                offset + filesz <= elf@.len(),
                elf@.len() == len,
                data@ == elf@.subrange(offset as int, offset + o),
            decreases filesz - o,
        {
            data.push(elf[offset + o]);
            o = o + 1;
            assert(data@ =~= elf@.subrange(offset as int, offset + o));
        }
        proof {
            crate::elf::lemma_field_nonneg(elf@, i);
            assert forall|a: int| vaddr <= a < vaddr + memsz implies #[trigger] in_areas(self.areas(), 0, a / 4096)
                && self.areas()[m].start() <= a / 4096 < self.areas()[m].end() by {
                assert(vaddr / 4096 <= a / 4096 && a / 4096 < (if vaddr + memsz == 0 { 0 } else { (vaddr + memsz - 1) / 4096 + 1 }))
                    by (nonlinear_arith)
                    requires
                        0 <= vaddr <= a < vaddr + memsz,
                ;
                assert(self.areas()[m].start() <= a / 4096 < self.areas()[m].end());
            }
            assert forall|a: int| vaddr <= a < vaddr + memsz implies #[trigger] user_byte(*self, *mem, a) == 0u8 by {
                let p = a / 4096;
                assert(in_areas(self.areas(), 0, p));
                self.lemma_page_frame(mem, p);
                self.lemma_frames_of(mem, m, p);
                let ka = choose|ka: int|
                    0 <= ka < self.areas().len() && (#[trigger] self.areas()[ka]).start() <= p < self.areas()[ka].end()
                        && page_frame(*self, *mem, p) == self.areas()[ka].frame_of(p);
                if ka != m {
                    self.lemma_disjoint(mem, ka, m);
                }
                let fr = page_frame(*self, *mem, p);
                assert(frame_zeroed(mem.ptes(), fr));
                assert(pte_at(mem.ptes(), fr, (a % 4096) / 8).bits == 0);
                let sh = ((a % 4096 % 8) * 8) as u64;
                assert((0u64 >> sh) & 0xffu64 == 0u64) by (bit_vector);
            }
            assert(range_in_areas(*self, vaddr_x as int, filesz as int));
        }
        let ghost m1 = *mem;
        self.write_user_bytes(mem, vaddr_x, &data);
        proof {
            assert forall|a: int|
                0 <= a && #[trigger] in_areas(self.areas().take(m), 0, a / 4096) implies user_byte(*self, *mem, a)
                    == user_byte(*self, m1, a) by {
                let p = a / 4096;
                let k = choose|k: int|
                    0 <= k < self.areas().take(m).len() && (#[trigger] self.areas().take(m)[k]).start() <= p
                        < self.areas().take(m)[k].end();
                assert(self.areas().take(m)[k] == self.areas()[k]);
                assert(in_areas(self.areas(), 0, p));
                if vaddr <= a < vaddr + memsz {
                    self.lemma_disjoint(mem, k, m);
                }
            }
            assert forall|o2: int| 0 <= o2 < memsz implies #[trigger] user_byte(*self, *mem, vaddr + o2) == if o2
                < crate::elf::p_filesz(elf@, i) {
                elf@[crate::elf::p_offset(elf@, i) + o2]
            } else {
                0u8
            } by {
                if o2 < filesz {
                    assert(user_byte(*self, *mem, vaddr_x + o2) == data@[o2]);
                } else {
                    assert(user_byte(*self, *mem, vaddr + o2) == user_byte(*self, m1, vaddr + o2));
                }
            }
        }
    }
}

/// The segments loaded into `ms`, whose bytes lie in its first `m` areas,
/// stay loaded when the bytes of those areas stay.
proof fn lemma_loaded_copy_kept(ms: MemorySet, m1: PhysMem, m2: PhysMem, elf: Seq<u8>, i: int, m: int)
    requires
        0 <= m <= ms.areas().len(),
        forall|a: int|
            0 <= a && #[trigger] in_areas(ms.areas().take(m), 0, a / 4096) ==> user_byte(ms, m2, a) == user_byte(
                ms,
                m1,
                a,
            ),
        forall|j: int|
            #![trigger segment_loaded(ms, m1, elf, j)]
            0 <= j < i && crate::elf::p_type(elf, j) == crate::elf::PT_LOAD ==> segment_loaded(ms, m1, elf, j)
                && segment_in_areas_prefix(ms, elf, j, m),
    ensures
        forall|j: int|
            #![trigger segment_loaded(ms, m2, elf, j)]
            0 <= j < i && crate::elf::p_type(elf, j) == crate::elf::PT_LOAD ==> segment_loaded(ms, m2, elf, j),
{
    assert forall|j: int|
        #![trigger segment_loaded(ms, m2, elf, j)]
        0 <= j < i && crate::elf::p_type(elf, j) == crate::elf::PT_LOAD implies segment_loaded(ms, m2, elf, j) by {
        assert(0 <= j < i);
        assert(segment_loaded(ms, m1, elf, j));
        assert(segment_in_areas_prefix(ms, elf, j, m));
        crate::elf::lemma_field_nonneg(elf, j);
        assert forall|o: int| 0 <= o < crate::elf::p_memsz(elf, j) implies #[trigger] user_byte(
            ms,
            m2,
            crate::elf::p_vaddr(elf, j) + o,
        ) == user_byte(ms, m1, crate::elf::p_vaddr(elf, j) + o) by {
            assert(in_areas(ms.areas().take(m), 0, (crate::elf::p_vaddr(elf, j) + o) / 4096));
        }
    }
}

/// Every byte of loadable segment `j` of `elf` lies in a page of one of the
/// first `m` areas of `ms`.
pub open spec fn segment_in_areas_prefix(ms: MemorySet, elf: Seq<u8>, j: int, m: int) -> bool {
    forall|o: int|
        0 <= o < crate::elf::p_memsz(elf, j) ==> #[trigger] in_areas(
            ms.areas().take(m),
            0,
            (crate::elf::p_vaddr(elf, j) + o) / 4096,
        )
}

} // verus!
