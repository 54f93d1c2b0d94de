//! Sv39 page-table entries, physical memory for page tables, and page tables.
//!
//! Physical memory is modelled as a range of frames `0..frame_count`, each
//! holding 512 64-bit words, together with the frame allocator that hands
//! them out. A table frame reads its words as page-table entries; a data
//! page's contents are its words, so a frame handed out zeroed holds only
//! zero bytes. A page table is a root frame and the table frames it owns;
//! its meaning is the map from virtual page numbers to the valid leaf entries
//! reached by the three-level Sv39 walk.
use vstd::prelude::*;
use crate::address::{vpn_index, lemma_vpn_indexes_determine, sign_extend, PhysAddr, PhysPageNum, VirtAddr, VirtPageNum, PAGE_BYTES, PPN_LIMIT, VA_LIMIT, VPN_LIMIT};

verus! {

/// Page-table entry flags (valid, readable, writable, executable, user,
/// global, accessed, dirty).
#[derive(Copy, Clone, PartialEq, Eq, Structural)]
pub struct PTEFlags {
    bits: u8,
}

impl PTEFlags {
    /// Valid
    pub const V: u8 = 1;
    /// Readable
    pub const R: u8 = 2;
    /// Writable
    pub const W: u8 = 4;
    /// eXecutable
    pub const X: u8 = 8;
    /// User
    pub const U: u8 = 16;
    /// Global
    pub const G: u8 = 32;
    /// Accessed
    pub const A: u8 = 64;
    /// Dirty
    pub const D: u8 = 128;

    /// The flag bits.
    pub closed spec fn value(&self) -> u8 {
        self.bits
    }

    /// The flags with these bits; every bit of a `u8` is a defined flag.
    pub fn from_bits(bits: u8) -> (r: Option<Self>)
        ensures
            r matches Some(f) && f.value() == bits,
    {
        Some(Self { bits })
    }

    /// The flags with these bits.
    pub fn from_bits_truncate(bits: u8) -> (r: Self)
        ensures
            r.value() == bits,
    {
        Self { bits }
    }

    /// No flags.
    pub fn empty() -> (r: Self)
        ensures
            r.value() == 0,
    {
        Self { bits: 0 }
    }

    /// The flag bits.
    pub fn bits(&self) -> (r: u8)
        ensures
            r == self.value(),
    {
        self.bits
    }

    /// Whether every flag of `other` is set.
    pub fn contains(&self, other: u8) -> (r: bool)
        ensures
            r == (self.value() & other == other),
    {
        self.bits & other == other
    }

    /// Whether some flag of `other` is set.
    pub fn intersects(&self, other: u8) -> (r: bool)
        ensures
            r == (self.value() & other != 0),
    {
        self.bits & other != 0
    }

    /// These flags together with those of `other`.
    pub fn union(&self, other: u8) -> (r: Self)
        ensures
            r.value() == self.value() | other,
    {
        Self { bits: self.bits | other }
    }
}

/// The physical page number field of an entry's bits (bits 10..54).
pub open spec fn pte_ppn(bits: u64) -> u64 {
    (bits >> 10u64) & 0xfff_ffff_ffffu64
}

/// The flag field of an entry's bits (bits 0..8).
pub open spec fn pte_flags(bits: u64) -> u8 {
    bits as u8
}

/// The bits of the entry that maps page `ppn` with flags `flags`.
pub open spec fn pte_bits(ppn: u64, flags: u8) -> u64 {
    (ppn << 10u64) | (flags as u64)
}

/// An entry built from a page number and flags gives them back.
pub proof fn lemma_pte_bits(ppn: u64, flags: u8)
    requires
        ppn < PPN_LIMIT,
    ensures
        pte_ppn(pte_bits(ppn, flags)) == ppn,
        pte_flags(pte_bits(ppn, flags)) == flags,
{
    assert(((((ppn << 10u64) | (flags as u64)) >> 10u64) & 0xfff_ffff_ffffu64) == ppn) by (bit_vector)
        requires
            ppn < 0x1000_0000_0000u64,
    ;
    assert((((ppn << 10u64) | (flags as u64)) as u8) == flags) by (bit_vector);
}

/// A page-table entry.
#[derive(Copy, Clone, PartialEq, Eq, Structural)]
pub struct PageTableEntry {
    /// bits of page table entry
    pub bits: u64,
}

impl PageTableEntry {
    /// The entry has the valid flag.
    pub open spec fn valid(self) -> bool {
        pte_flags(self.bits) & PTEFlags::V != 0
    }

    /// The entry maps a page rather than pointing to a next-level table:
    /// one of the readable, writable and executable flags is set.
    pub open spec fn is_leaf(self) -> bool {
        pte_flags(self.bits) & (PTEFlags::R | PTEFlags::W | PTEFlags::X) != 0
    }

    /// Create the entry that maps `ppn` with `flags`.
    pub fn new(ppn: PhysPageNum, flags: PTEFlags) -> (r: Self)
        ensures
            r.bits == pte_bits(ppn.0, flags.value()),
    {
        PageTableEntry { bits: ppn.0 << 10 | flags.bits() as u64 }
    }

    /// Create an empty entry.
    pub fn empty() -> (r: Self)
        ensures
            r.bits == 0,
            !r.valid(),
            !r.is_leaf(),
    {
        assert((0u64 as u8) & 1u8 == 0u8 && (0u64 as u8) & (2u8 | 4u8 | 8u8) == 0u8) by (bit_vector);
        PageTableEntry { bits: 0 }
    }

    /// The physical page number of the entry.
    pub fn ppn(&self) -> (r: PhysPageNum)
        ensures
            r.0 == pte_ppn(self.bits),
            r.0 < PPN_LIMIT,
    {
        let b = self.bits;
        assert(((b >> 10u64) & 0xfff_ffff_ffffu64) < 0x1000_0000_0000u64) by (bit_vector);
        PhysPageNum(self.bits >> 10 & 0xfff_ffff_ffffu64)
    }

    /// The flags of the entry.
    pub fn flags(&self) -> (r: PTEFlags)
        ensures
            r.value() == pte_flags(self.bits),
    {
        PTEFlags::from_bits_truncate(self.bits as u8)
    }

    /// The page pointered by page table entry is valid?
    pub fn is_valid(&self) -> (r: bool)
        ensures
            r == self.valid(),
    {
        self.flags().intersects(PTEFlags::V)
    }

    /// The page pointered by page table entry is readable?
    pub fn readable(&self) -> (r: bool)
        ensures
            r == (pte_flags(self.bits) & PTEFlags::R != 0),
    {
        self.flags().intersects(PTEFlags::R)
    }

    /// The page pointered by page table entry is writable?
    pub fn writable(&self) -> (r: bool)
        ensures
            r == (pte_flags(self.bits) & PTEFlags::W != 0),
    {
        self.flags().intersects(PTEFlags::W)
    }

    /// The page pointered by page table entry is executable?
    pub fn executable(&self) -> (r: bool)
        ensures
            r == (pte_flags(self.bits) & PTEFlags::X != 0),
    {
        self.flags().intersects(PTEFlags::X)
    }
}

/// Entries in one page-table frame.
pub const PTES_PER_FRAME: usize = 512;

/// Entry `i` of frame `ppn` in a memory of page-table entries.
pub open spec fn pte_at(mem: Seq<PageTableEntry>, ppn: int, i: int) -> PageTableEntry {
    mem[ppn * 512 + i]
}

/// Entry `i` of frame `ppn` lies within a memory of `frames` frames.
pub proof fn lemma_slot_in_range(ppn: int, i: int, frames: int)
    requires
        0 <= ppn < frames,
        0 <= i < 512,
    ensures
        0 <= ppn * 512 + i < frames * 512,
        ppn * 512 + 512 <= frames * 512,
{
    assert(0 <= ppn * 512 + i < frames * 512 && ppn * 512 + 512 <= frames * 512) by (nonlinear_arith)
        requires
            0 <= ppn < frames,
            0 <= i < 512,
    ;
}

/// Physical memory as frames of 512 words, with its frame allocator:
/// frames below `next` have been handed out, except the recycled ones.
pub struct PhysMem {
    ptes: Vec<PageTableEntry>,
    frames: usize,
    next: usize,
    recycled: Vec<usize>,
}

impl PhysMem {
    /// The number of frames.
    pub closed spec fn frame_count(&self) -> nat {
        self.frames as nat
    }

    /// The entries of all frames, frame after frame.
    pub closed spec fn ptes(&self) -> Seq<PageTableEntry> {
        self.ptes@
    }

    /// Whether frame `ppn` is currently handed out.
    pub closed spec fn is_allocated(&self, ppn: int) -> bool {
        0 <= ppn < self.next && !self.recycled@.contains(ppn as usize)
    }

    /// The number of frames that can still be handed out.
    pub closed spec fn free_count(&self) -> nat {
        (self.frames - self.next + self.recycled@.len()) as nat
    }

    /// The memory's invariant.
    pub closed spec fn wf(&self) -> bool {
        &&& self.ptes@.len() == self.frames * 512
        &&& self.frames * 512 <= usize::MAX
        &&& self.frames <= PPN_LIMIT
        &&& self.next <= self.frames
        &&& self.recycled@.no_duplicates()
        &&& forall|k: int| 0 <= k < self.recycled@.len() ==> #[trigger] self.recycled@[k] < self.next
    }

    /// Whether a frame can still be handed out.
    pub fn has_free_frame(&self) -> (r: bool)
        requires
            self.wf(),
        ensures
            r == (self.free_count() > 0),
    {
        self.next < self.frames || self.recycled.len() > 0
    }

    /// Copy the 512 entries of frame `src` into frame `dst`; every other
    /// frame keeps its contents.
    pub fn copy_frame(&mut self, src: PhysPageNum, dst: PhysPageNum)
        requires
            old(self).wf(),
            src.0 < old(self).frame_count(),
            dst.0 < old(self).frame_count(),
            src != dst,
        ensures
            final(self).wf(),
            final(self).frame_count() == old(self).frame_count(),
            final(self).free_count() == old(self).free_count(),
            forall|q: int| #[trigger] final(self).is_allocated(q) == old(self).is_allocated(q),
            forall|j: int| 0 <= j < 512 ==> #[trigger] pte_at(final(self).ptes(), dst.0 as int, j) == pte_at(
                old(self).ptes(),
                src.0 as int,
                j,
            ),
            forall|q: int|
                0 <= q < old(self).frame_count() && q != dst.0 ==> #[trigger] same_frame(
                    old(self).ptes(),
                    final(self).ptes(),
                    q,
                ),
    {
        let mut j: usize = 0;
        while j < 512
            invariant
                self.wf(),
                j <= 512,
                src.0 < old(self).frame_count(),
                dst.0 < old(self).frame_count(),
                src != dst,
                self.frame_count() == old(self).frame_count(),
                self.free_count() == old(self).free_count(),
                forall|q: int| #[trigger] self.is_allocated(q) == old(self).is_allocated(q),
                forall|k: int| 0 <= k < j ==> #[trigger] pte_at(self.ptes(), dst.0 as int, k) == pte_at(
                    old(self).ptes(),
                    src.0 as int,
                    k,
                ),
                forall|q: int, k: int|
                    0 <= q < old(self).frame_count() && 0 <= k < 512 && (q != dst.0 || k >= j) ==> #[trigger] pte_at(self.ptes(), q, k) == pte_at(
                        old(self).ptes(),
                        q,
                        k,
                    ),
            decreases 512 - j,
        {
            let e = self.read(src, j);
            let ghost before = self.ptes();
            self.write(dst, j, e);
            proof {
                assert forall|q: int, k: int|
                    0 <= q < old(self).frame_count() && 0 <= k < 512 && (q != dst.0 || k >= j + 1) implies #[trigger] pte_at(self.ptes(), q, k)
                        == pte_at(old(self).ptes(), q, k) by {
                    lemma_slot_in_range(q, k, old(self).frame_count() as int);
                    if q * 512 + k == dst.0 * 512 + j {
                        lemma_slots_distinct(q, k, dst.0 as int, j as int);
                    }
                    assert(pte_at(self.ptes(), q, k) == pte_at(before, q, k));
                }
                assert forall|k: int| 0 <= k < j + 1 implies #[trigger] pte_at(self.ptes(), dst.0 as int, k)
                    == pte_at(old(self).ptes(), src.0 as int, k) by {
                    if k < j {
                        if dst.0 * 512 + k == dst.0 * 512 + j {
                            lemma_slots_distinct(dst.0 as int, k, dst.0 as int, j as int);
                        }
                        lemma_slot_in_range(dst.0 as int, k, old(self).frame_count() as int);
                        assert(pte_at(self.ptes(), dst.0 as int, k) == pte_at(before, dst.0 as int, k));
                    } else {
                        lemma_slot_in_range(dst.0 as int, j as int, old(self).frame_count() as int);
                        lemma_slot_in_range(src.0 as int, j as int, old(self).frame_count() as int);
                    }
                }
            }
            j = j + 1;
        }
        proof {
            assert forall|q: int| 0 <= q < old(self).frame_count() && q != dst.0 implies #[trigger] same_frame(old(self).ptes(), self.ptes(), q) by {
                assert forall|k: int| 0 <= k < 512 implies #[trigger] pte_at(self.ptes(), q, k) == pte_at(
                    old(self).ptes(),
                    q,
                    k,
                ) by {}
            }
        }
    }

    /// A handed-out frame is a frame of the memory.
    pub proof fn lemma_allocated_in_range(&self, q: int)
        requires
            self.wf(),
            self.is_allocated(q),
        ensures
            0 <= q < self.frame_count(),
    {
    }

    /// Store byte `b` at byte `o` of frame `f`; every other byte of memory
    /// keeps its value.
    pub fn write_byte(&mut self, f: PhysPageNum, o: usize, b: u8)
        requires
            old(self).wf(),
            f.0 < old(self).frame_count(),
            o < 4096,
        ensures
            final(self).wf(),
            final(self).frame_count() == old(self).frame_count(),
            final(self).free_count() == old(self).free_count(),
            forall|q: int| #[trigger] final(self).is_allocated(q) == old(self).is_allocated(q),
            frame_byte(final(self).ptes(), f.0 as int, o as int) == b,
            forall|o2: int|
                0 <= o2 < 4096 && o2 != o ==> #[trigger] frame_byte(final(self).ptes(), f.0 as int, o2)
                    == frame_byte(old(self).ptes(), f.0 as int, o2),
            forall|q: int|
                0 <= q < old(self).frame_count() && q != f.0 ==> #[trigger] same_frame(
                    old(self).ptes(),
                    final(self).ptes(),
                    q,
                ),
    {
        let i = o / 8;
        let sh: u64 = ((o % 8) * 8) as u64;
        let e = self.read(f, i);
        let w = e.bits;
        let nw = (w & !(0xffu64 << sh)) | ((b as u64) << sh);
        let ghost m0 = self.ptes();
        self.write(f, i, PageTableEntry { bits: nw });
        proof {
            lemma_slot_in_range(f.0 as int, i as int, old(self).frame_count() as int);
            assert(sh < 64 && sh % 8 == 0);
            assert(((((w & !(0xffu64 << sh)) | ((b as u64) << sh)) >> sh) & 0xffu64) as u8 == b) by (bit_vector)
                requires
                    sh < 64,
                    sh % 8 == 0,
            ;
            assert forall|o2: int| 0 <= o2 < 4096 && o2 != o implies #[trigger] frame_byte(self.ptes(), f.0 as int, o2)
                == frame_byte(m0, f.0 as int, o2) by {
                lemma_slot_in_range(f.0 as int, o2 / 8, old(self).frame_count() as int);
                if o2 / 8 == i as int {
                    let sh2: u64 = ((o2 % 8) * 8) as u64;
                    assert(sh2 != sh);
                    assert(sh2 < 64 && sh2 % 8 == 0);
                    assert((((w & !(0xffu64 << sh)) | ((b as u64) << sh)) >> sh2) & 0xffu64 == (w >> sh2)
                        & 0xffu64) by (bit_vector)
                        requires
                            sh < 64,
                            sh % 8 == 0,
                            sh2 < 64,
                            sh2 % 8 == 0,
                            sh2 != sh,
                    ;
                } else {
                    if f.0 * 512 + o2 / 8 == f.0 * 512 + i {
                        lemma_slots_distinct(f.0 as int, o2 / 8, f.0 as int, i as int);
                    }
                }
            }
            assert forall|q: int| 0 <= q < old(self).frame_count() && q != f.0 implies #[trigger] same_frame(
                m0,
                self.ptes(),
                q,
            ) by {
                assert forall|j: int| 0 <= j < 512 implies #[trigger] pte_at(self.ptes(), q, j) == pte_at(m0, q, j) by {
                    lemma_slot_in_range(q, j, old(self).frame_count() as int);
                    if q * 512 + j == f.0 * 512 + i {
                        lemma_slots_distinct(q, j, f.0 as int, i as int);
                    }
                }
            }
        }
    }

    /// There are at most as many frames as physical page numbers.
    pub proof fn lemma_frame_limit(&self)
        requires
            self.wf(),
        ensures
            self.frame_count() <= PPN_LIMIT,
    {
    }

    /// A memory of `frames` zeroed frames, none handed out.
    pub fn new(frames: usize) -> (r: Self)
        requires
            frames * 512 <= usize::MAX,
            frames <= PPN_LIMIT,
        ensures
            r.wf(),
            r.frame_count() == frames,
            r.free_count() == frames,
            forall|p: int| !r.is_allocated(p),
            forall|k: int| 0 <= k < r.ptes().len() ==> (#[trigger] r.ptes()[k]).bits == 0,
    {
        let total = frames * 512;
        let mut ptes: Vec<PageTableEntry> = Vec::new();
        let mut k: usize = 0;
        while k < total
            invariant
                k <= total,
                ptes@.len() == k,
                forall|j: int| 0 <= j < k ==> (#[trigger] ptes@[j]).bits == 0,
            decreases total - k,
        {
            ptes.push(PageTableEntry { bits: 0 });
            k = k + 1;
        }
        Self { ptes, frames, next: 0, recycled: Vec::new() }
    }

    /// The number of frames.
    pub fn frames(&self) -> (r: usize)
        ensures
            r == self.frame_count(),
    {
        self.frames
    }

    /// Read entry `i` of frame `ppn`.
    pub fn read(&self, ppn: PhysPageNum, i: usize) -> (r: PageTableEntry)
        requires
            self.wf(),
            ppn.0 < self.frame_count(),
            i < 512,
        ensures
            r == pte_at(self.ptes(), ppn.0 as int, i as int),
    {
        proof {
            lemma_slot_in_range(ppn.0 as int, i as int, self.frames as int);
        }
        self.ptes[(ppn.0 as usize) * 512 + i]
    }

    /// Write entry `i` of frame `ppn`.
    pub fn write(&mut self, ppn: PhysPageNum, i: usize, e: PageTableEntry)
        requires
            old(self).wf(),
            ppn.0 < old(self).frame_count(),
            i < 512,
        ensures
            final(self).wf(),
            final(self).frame_count() == old(self).frame_count(),
            final(self).free_count() == old(self).free_count(),
            forall|p: int| final(self).is_allocated(p) == old(self).is_allocated(p),
            final(self).ptes() == old(self).ptes().update(ppn.0 * 512 + i, e),
    {
        proof {
            lemma_slot_in_range(ppn.0 as int, i as int, self.frames as int);
        }
        self.ptes.set((ppn.0 as usize) * 512 + i, e);
    }

    /// Hand out a free frame, cleared to empty entries: the most recently
    /// recycled one, or else the next never-used one. `None` when no frame is
    /// free.
    pub fn frame_alloc(&mut self) -> (r: Option<PhysPageNum>)
        requires
            old(self).wf(),
        ensures
            final(self).wf(),
            final(self).frame_count() == old(self).frame_count(),
            old(self).free_count() == 0 <==> r is None,
            r is None ==> *final(self) == *old(self),
            r matches Some(p) ==> {
                &&& p.0 < old(self).frame_count()
                &&& p.0 < PPN_LIMIT
                &&& !old(self).is_allocated(p.0 as int)
                &&& final(self).is_allocated(p.0 as int)
                &&& forall|q: int|
                    q != p.0 ==> #[trigger] final(self).is_allocated(q) == old(self).is_allocated(q)
                &&& final(self).free_count() == old(self).free_count() - 1
                &&& forall|i: int|
                    0 <= i < 512 ==> #[trigger] pte_at(final(self).ptes(), p.0 as int, i).bits == 0
                &&& forall|q: int, i: int|
                    0 <= q < old(self).frame_count() && q != p.0 && 0 <= i < 512 ==> #[trigger] pte_at(final(self).ptes(), q, i) == pte_at(
                        old(self).ptes(),
                        q,
                        i,
                    )
            },
    {
        let ppn: usize;
        if self.recycled.len() > 0 {
            let ghost rec = self.recycled@;
            let p = self.recycled.pop();
            match p {
                Some(q) => {
                    ppn = q;
                },
                None => {
                    return None;
                },
            }
            proof {
                assert(rec.last() == ppn);
                assert forall|q: int| q != ppn implies #[trigger] self.is_allocated(q) == (0 <= q
                    < self.next && !rec.contains(q as usize)) by {
                    if 0 <= q < self.next {
                        if rec.contains(q as usize) {
                            let w = rec.index_of(q as usize);
                            assert(w < rec.len() - 1);
                            assert(self.recycled@[w] == q);
                        }
                        if self.recycled@.contains(q as usize) {
                            let w = self.recycled@.index_of(q as usize);
                            assert(rec[w] == q);
                        }
                    }
                }
                assert(!self.recycled@.contains(ppn)) by {
                    if self.recycled@.contains(ppn) {
                        let w = self.recycled@.index_of(ppn);
                        assert(rec[w] == rec[rec.len() - 1]);
                    }
                }
            }
        } else if self.next == self.frames {
            return None;
        } else {
            ppn = self.next;
            self.next = self.next + 1;
            assert forall|q: int| q != ppn implies #[trigger] self.is_allocated(q) == old(
                self,
            ).is_allocated(q) by {}
        }
        assert(forall|q: int| q != ppn ==> #[trigger] self.is_allocated(q) == old(self).is_allocated(q));
        let ghost pre = *self;
        let ghost before = self.ptes@;
        let ghost rec_after = self.recycled@;
        let ghost next_after = self.next;
        proof {
            lemma_slot_in_range(ppn as int, 0, self.frames as int);
        }
        let base = ppn * 512;
        let mut i: usize = 0;
        while i < 512
            invariant
                i <= 512,
                self.wf(),
                ppn < self.frames,
                base == ppn * 512,
                self.next == next_after,
                self.recycled@ == rec_after,
                self.frames == old(self).frames,
                self.ptes@.len() == before.len(),
                base + 512 <= self.ptes@.len(),
                forall|j: int| 0 <= j < i ==> (#[trigger] self.ptes@[base + j]).bits == 0,
                forall|k: int|
                    0 <= k < self.ptes@.len() && !(base <= k < base + i) ==> #[trigger] self.ptes@[k]
                        == before[k],
            decreases 512 - i,
        {
            self.ptes.set(base + i, PageTableEntry { bits: 0 });
            i = i + 1;
        }
        proof {
            assert forall|q: int, j: int| 0 <= q < self.frames && q != ppn && 0 <= j < 512 implies #[trigger] pte_at(
                self.ptes(),
                q,
                j,
            ) == pte_at(before, q, j) by {
                lemma_slot_in_range(q, j, self.frames as int);
                assert(!(base <= q * 512 + j < base + 512)) by (nonlinear_arith)
                    requires
                        q != ppn,
                        0 <= j < 512,
                        base == ppn * 512,
                ;
            }
        }
        assert forall|q: int| q != ppn implies #[trigger] self.is_allocated(q) == old(
            self,
        ).is_allocated(q) by {
            assert(self.is_allocated(q) == pre.is_allocated(q));
        }
        Some(PhysPageNum(ppn as u64))
    }

    /// Return a handed-out frame to the allocator.
    pub fn frame_dealloc(&mut self, ppn: PhysPageNum)
        requires
            old(self).wf(),
            old(self).is_allocated(ppn.0 as int),
        ensures
            final(self).wf(),
            final(self).frame_count() == old(self).frame_count(),
            final(self).ptes() == old(self).ptes(),
            final(self).free_count() == old(self).free_count() + 1,
            !final(self).is_allocated(ppn.0 as int),
            forall|q: int|
                q != ppn.0 ==> #[trigger] final(self).is_allocated(q) == old(self).is_allocated(q),
    {
        let ghost rec = self.recycled@;
        self.recycled.push(ppn.0 as usize);
        proof {
            assert(self.recycled@.last() == ppn.0 as usize);
            assert forall|q: int| q != ppn.0 implies #[trigger] self.is_allocated(q) == (0 <= q
                < self.next && !rec.contains(q as usize)) by {
                if 0 <= q < self.next {
                    if rec.contains(q as usize) {
                        let w = rec.index_of(q as usize);
                        assert(self.recycled@[w] == q);
                    }
                    if self.recycled@.contains(q as usize) {
                        let w = self.recycled@.index_of(q as usize);
                        assert(w < rec.len());
                        assert(rec[w] == q);
                    }
                }
            }
            assert forall|a: int, b: int|
                0 <= a < self.recycled@.len() && 0 <= b < self.recycled@.len() && a != b implies self.recycled@[a]
                != self.recycled@[b] by {
                if a < rec.len() && b < rec.len() {
                } else if a < rec.len() {
                    assert(rec.contains(self.recycled@[a]));
                } else {
                    assert(rec.contains(self.recycled@[b]));
                }
            }
        }
    }
}


/// Entry `i` of frame `f` and entry `j` of frame `g` are the same slot only
/// when the frames and the indexes agree.
pub proof fn lemma_slots_distinct(f: int, i: int, g: int, j: int)
    requires
        0 <= i < 512,
        0 <= j < 512,
        f * 512 + i == g * 512 + j,
    ensures
        f == g,
        i == j,
{
    assert(f == g && i == j) by (nonlinear_arith)
        requires
            0 <= i < 512,
            0 <= j < 512,
            f * 512 + i == g * 512 + j,
    ;
}

/// An all-zero entry is neither valid nor a leaf.
pub proof fn lemma_zero_entry(e: PageTableEntry)
    requires
        e.bits == 0,
    ensures
        !e.valid(),
        !e.is_leaf(),
{
    let b = e.bits;
    assert((b as u8) & 1u8 == 0u8 && (b as u8) & (2u8 | 4u8 | 8u8) == 0u8) by (bit_vector)
        requires
            b == 0u64,
    ;
}

/// The table that entry `i` of table `table` points to, if it points to one:
/// the entry is valid and maps no page itself.
pub open spec fn next_table(mem: Seq<PageTableEntry>, table: int, i: int) -> Option<int> {
    let e = pte_at(mem, table, i);
    if e.valid() && !e.is_leaf() {
        Some(pte_ppn(e.bits) as int)
    } else {
        None
    }
}

/// The last-level slot (table, index) that the Sv39 walk from `root` reaches
/// for page `vpn`, if the walk gets that far.
pub open spec fn leaf_slot(mem: Seq<PageTableEntry>, root: int, vpn: int) -> Option<(int, int)> {
    match next_table(mem, root, vpn_index(vpn, 0)) {
        None => None,
        Some(t1) => match next_table(mem, t1, vpn_index(vpn, 1)) {
            None => None,
            Some(t2) => Some((t2, vpn_index(vpn, 2))),
        },
    }
}

/// The last-level entry for page `vpn`, if the walk reaches one.
pub open spec fn lookup(mem: Seq<PageTableEntry>, root: int, vpn: int) -> Option<PageTableEntry> {
    match leaf_slot(mem, root, vpn) {
        None => None,
        Some(slot) => Some(pte_at(mem, slot.0, slot.1)),
    }
}

/// The pages mapped by the page table rooted at `root`, each with its valid
/// last-level entry.
pub open spec fn mappings(mem: Seq<PageTableEntry>, root: int) -> Map<int, PageTableEntry> {
    Map::new(
        |vpn: int|
            0 <= vpn < VPN_LIMIT && lookup(mem, root, vpn) is Some && lookup(
                mem,
                root,
                vpn,
            ).unwrap().valid(),
        |vpn: int| lookup(mem, root, vpn).unwrap(),
    )
}

/// The walk for `vpn` only reads frames below `frames`.
pub open spec fn walk_in_range(mem: Seq<PageTableEntry>, frames: int, root: int, vpn: int) -> bool {
    &&& 0 <= root < frames
    &&& next_table(mem, root, vpn_index(vpn, 0)) matches Some(t1) ==> {
        &&& 0 <= t1 < frames
        &&& next_table(mem, t1, vpn_index(vpn, 1)) matches Some(t2) ==> 0 <= t2 < frames
    }
}

/// The tables of a page table form a tree rooted at `root`: `tables` gives
/// each table frame the indexes that lead to it from the root, and every
/// pointer in a root or middle-level table leads to a table of the map.
pub open spec fn wf_tree(mem: Seq<PageTableEntry>, root: int, tables: Map<int, Seq<int>>) -> bool {
    &&& tables.contains_key(root)
    &&& tables[root] == Seq::<int>::empty()
    &&& forall|f: int, i: int|
        tables.contains_key(f) && tables[f].len() < 2 && 0 <= i < 512 && #[trigger] next_table(
            mem,
            f,
            i,
        ) is Some ==> tables.contains_key(next_table(mem, f, i).unwrap()) && tables[next_table(
            mem,
            f,
            i,
        ).unwrap()] == tables[f].push(i)
}

/// Every table frame lies within a memory of `len` entries.
pub open spec fn tables_in_range(tables: Map<int, Seq<int>>, len: int) -> bool {
    forall|f: int| #[trigger] tables.contains_key(f) ==> 0 <= f && f * 512 + 512 <= len
}

/// Memories that agree on every table frame give the same walks.
pub proof fn lemma_agree(
    m1: Seq<PageTableEntry>,
    m2: Seq<PageTableEntry>,
    root: int,
    tables: Map<int, Seq<int>>,
)
    requires
        wf_tree(m1, root, tables),
        forall|f: int, i: int|
            tables.contains_key(f) && 0 <= i < 512 ==> #[trigger] pte_at(m2, f, i) == pte_at(m1, f, i),
    ensures
        wf_tree(m2, root, tables),
        forall|vpn: int| #[trigger] lookup(m2, root, vpn) == lookup(m1, root, vpn),
        mappings(m2, root) == mappings(m1, root),
{
    assert forall|f: int, i: int|
        tables.contains_key(f) && tables[f].len() < 2 && 0 <= i < 512 && #[trigger] next_table(
            m2,
            f,
            i,
        ) is Some implies tables.contains_key(next_table(m2, f, i).unwrap()) && tables[next_table(
        m2,
        f,
        i,
    ).unwrap()] == tables[f].push(i) by {
        assert(pte_at(m2, f, i) == pte_at(m1, f, i));
        assert(next_table(m1, f, i) is Some);
    }
    assert forall|vpn: int| #[trigger] lookup(m2, root, vpn) == lookup(m1, root, vpn) by {
        let i0 = vpn_index(vpn, 0);
        let i1 = vpn_index(vpn, 1);
        let i2 = vpn_index(vpn, 2);
        assert(pte_at(m2, root, i0) == pte_at(m1, root, i0));
        if let Some(t1) = next_table(m1, root, i0) {
            assert(tables.contains_key(t1));
            assert(pte_at(m2, t1, i1) == pte_at(m1, t1, i1));
            if let Some(t2) = next_table(m1, t1, i1) {
                assert(tables.contains_key(t2));
                assert(pte_at(m2, t2, i2) == pte_at(m1, t2, i2));
            }
        }
    }
    assert(mappings(m2, root) =~= mappings(m1, root));
}


/// Pointing an empty slot of a root or middle-level table at a fresh table
/// whose entries are all invalid adds that table to the tree and maps no new
/// page.
pub proof fn lemma_link_table(
    m1: Seq<PageTableEntry>,
    m2: Seq<PageTableEntry>,
    root: int,
    tables: Map<int, Seq<int>>,
    table: int,
    i: int,
    frame: int,
)
    requires
        wf_tree(m1, root, tables),
        tables_in_range(tables, m1.len() as int),
        tables.contains_key(table),
        tables[table].len() < 2,
        0 <= i < 512,
        next_table(m1, table, i) is None,
        !tables.contains_key(frame),
        0 <= frame,
        frame * 512 + 512 <= m1.len(),
        forall|j: int| 0 <= j < 512 ==> !(#[trigger] pte_at(m1, frame, j)).valid(),
        m2.len() == m1.len(),
        next_table(m2, table, i) == Some(frame),
        forall|k: int| 0 <= k < m1.len() && k != table * 512 + i ==> #[trigger] m2[k] == m1[k],
    ensures
        wf_tree(m2, root, tables.insert(frame, tables[table].push(i))),
        tables_in_range(tables.insert(frame, tables[table].push(i)), m2.len() as int),
        mappings(m2, root) == mappings(m1, root),
{
    let t2s = tables.insert(frame, tables[table].push(i));
    // Entries other than the written slot are unchanged in table frames and
    // in the fresh frame.
    assert forall|f: int, j: int|
        (tables.contains_key(f) || f == frame) && 0 <= j < 512 && !(f == table && j == i) implies #[trigger] pte_at(
        m2,
        f,
        j,
    ) == pte_at(m1, f, j) by {
        if f * 512 + j == table * 512 + i {
            lemma_slots_distinct(f, j, table, i);
        }
    }
    assert forall|f: int, j: int|
        t2s.contains_key(f) && t2s[f].len() < 2 && 0 <= j < 512 && #[trigger] next_table(
            m2,
            f,
            j,
        ) is Some implies t2s.contains_key(next_table(m2, f, j).unwrap()) && t2s[next_table(
        m2,
        f,
        j,
    ).unwrap()] == t2s[f].push(j) by {
        if f == frame {
            assert(pte_at(m2, f, j) == pte_at(m1, f, j));
        } else if f == table && j == i {
        } else {
            assert(pte_at(m2, f, j) == pte_at(m1, f, j));
            assert(next_table(m1, f, j) is Some);
        }
    }
    assert forall|vpn: int| 0 <= vpn < VPN_LIMIT implies {
        &&& (#[trigger] mappings(m2, root).contains_key(vpn)) == mappings(m1, root).contains_key(vpn)
        &&& mappings(m1, root).contains_key(vpn) ==> mappings(m2, root)[vpn] == mappings(m1, root)[vpn]
    } by {
        let i0 = vpn_index(vpn, 0);
        let i1 = vpn_index(vpn, 1);
        let i2 = vpn_index(vpn, 2);
        if table == root && i0 == i {
            assert(lookup(m1, root, vpn) is None);
            assert(pte_at(m2, frame, i1) == pte_at(m1, frame, i1));
            assert(lookup(m2, root, vpn) is None);
        } else {
            assert(pte_at(m2, root, i0) == pte_at(m1, root, i0));
            if let Some(t1) = next_table(m1, root, i0) {
                assert(tables.contains_key(t1) && tables[t1] == seq![i0]);
                if t1 == table && i1 == i {
                    assert(lookup(m1, root, vpn) is None);
                    assert(pte_at(m2, frame, i2) == pte_at(m1, frame, i2));
                    assert(!lookup(m2, root, vpn).unwrap().valid());
                } else {
                    assert(pte_at(m2, t1, i1) == pte_at(m1, t1, i1));
                    if let Some(t2) = next_table(m1, t1, i1) {
                        assert(tables.contains_key(t2) && tables[t2].len() == 2);
                        assert(t2 != table);
                        assert(pte_at(m2, t2, i2) == pte_at(m1, t2, i2));
                    }
                }
            }
        }
    }
    assert(mappings(m2, root) =~= mappings(m1, root));
}

/// Writing the last-level slot of page `vpn` changes the entry of `vpn` and of
/// no other page.
pub proof fn lemma_set_leaf(
    m1: Seq<PageTableEntry>,
    m2: Seq<PageTableEntry>,
    root: int,
    tables: Map<int, Seq<int>>,
    vpn: int,
    e: PageTableEntry,
)
    requires
        wf_tree(m1, root, tables),
        tables_in_range(tables, m1.len() as int),
        0 <= vpn < VPN_LIMIT,
        leaf_slot(m1, root, vpn) is Some,
        m2 == m1.update(
            leaf_slot(m1, root, vpn).unwrap().0 * 512 + leaf_slot(m1, root, vpn).unwrap().1,
            e,
        ),
    ensures
        wf_tree(m2, root, tables),
        leaf_slot(m2, root, vpn) == leaf_slot(m1, root, vpn),
        lookup(m2, root, vpn) == Some(e),
        forall|v: int| 0 <= v < VPN_LIMIT && v != vpn ==> #[trigger] lookup(m2, root, v) == lookup(m1, root, v),
        e.valid() ==> mappings(m2, root) == mappings(m1, root).insert(vpn, e),
        !e.valid() ==> mappings(m2, root) == mappings(m1, root).remove(vpn),
{
    let (t2, i2) = leaf_slot(m1, root, vpn).unwrap();
    let t1 = next_table(m1, root, vpn_index(vpn, 0)).unwrap();
    assert(tables.contains_key(t1) && tables[t1] == seq![vpn_index(vpn, 0)]);
    assert(tables.contains_key(t2) && tables[t2] == seq![vpn_index(vpn, 0), vpn_index(vpn, 1)]);
    assert(0 <= i2 < 512);
    assert forall|f: int, j: int|
        tables.contains_key(f) && 0 <= j < 512 && !(f == t2 && j == i2) implies #[trigger] pte_at(
        m2,
        f,
        j,
    ) == pte_at(m1, f, j) by {
        if f * 512 + j == t2 * 512 + i2 {
            lemma_slots_distinct(f, j, t2, i2);
        }
    }
    assert forall|f: int, j: int|
        tables.contains_key(f) && tables[f].len() < 2 && 0 <= j < 512 && #[trigger] next_table(
            m2,
            f,
            j,
        ) is Some implies tables.contains_key(next_table(m2, f, j).unwrap()) && tables[next_table(
        m2,
        f,
        j,
    ).unwrap()] == tables[f].push(j) by {
        assert(f != t2);
        assert(pte_at(m2, f, j) == pte_at(m1, f, j));
        assert(next_table(m1, f, j) is Some);
    }
    assert(pte_at(m2, root, vpn_index(vpn, 0)) == pte_at(m1, root, vpn_index(vpn, 0)));
    assert(pte_at(m2, t1, vpn_index(vpn, 1)) == pte_at(m1, t1, vpn_index(vpn, 1)));
    assert forall|v: int| 0 <= v < VPN_LIMIT && v != vpn implies #[trigger] lookup(m2, root, v)
        == lookup(m1, root, v) by {
        let i0 = vpn_index(v, 0);
        let i1 = vpn_index(v, 1);
        assert(pte_at(m2, root, i0) == pte_at(m1, root, i0));
        if let Some(u1) = next_table(m1, root, i0) {
            assert(tables.contains_key(u1) && tables[u1] == seq![i0]);
            assert(pte_at(m2, u1, i1) == pte_at(m1, u1, i1));
            if let Some(u2) = next_table(m1, u1, i1) {
                assert(tables.contains_key(u2) && tables[u2] == seq![i0, i1]);
                if u2 == t2 && vpn_index(v, 2) == i2 {
                    assert(seq![i0, i1][0] == i0 && seq![i0, i1][1] == i1);
                    assert(tables[t2][0] == vpn_index(vpn, 0) && tables[t2][1] == vpn_index(vpn, 1));
                    lemma_vpn_indexes_determine(v, vpn);
                }
                assert(pte_at(m2, u2, vpn_index(v, 2)) == pte_at(m1, u2, vpn_index(v, 2)));
            }
        }
    }
    if e.valid() {
        assert(mappings(m2, root) =~= mappings(m1, root).insert(vpn, e));
    } else {
        assert(mappings(m2, root) =~= mappings(m1, root).remove(vpn));
    }
}


/// The mask of a `satp` value's page-number field (the low 44 bits).
pub const SATP_PPN_MASK: u64 = 0xfff_ffff_ffff;
/// The `satp` mode field for Sv39 paging (8), in bits 60..64.
pub const SATP_SV39: u64 = 0x8000_0000_0000_0000;

/// Why a page cannot be mapped along the walk: a root or middle-level entry
/// on its path maps a large page instead of pointing to a table.
pub open spec fn walk_blocked(mem: Seq<PageTableEntry>, root: int, vpn: int) -> bool {
    let e0 = pte_at(mem, root, vpn_index(vpn, 0));
    ||| e0.valid() && e0.is_leaf()
    ||| {
        &&& next_table(mem, root, vpn_index(vpn, 0)) is Some
        &&& {
            let e1 = pte_at(mem, next_table(mem, root, vpn_index(vpn, 0)).unwrap(), vpn_index(vpn, 1));
            e1.valid() && e1.is_leaf()
        }
    }
}

/// How many table frames the walk for `vpn` lacks.
pub open spec fn frames_needed(mem: Seq<PageTableEntry>, root: int, vpn: int) -> nat {
    if !pte_at(mem, root, vpn_index(vpn, 0)).valid() {
        2
    } else if next_table(mem, root, vpn_index(vpn, 0)) is Some && !pte_at(
        mem,
        next_table(mem, root, vpn_index(vpn, 0)).unwrap(),
        vpn_index(vpn, 1),
    ).valid() {
        1
    } else {
        0
    }
}

/// An Sv39 page table: a root frame and the table frames it owns.
pub struct PageTable {
    root_ppn: PhysPageNum,
    frames: Vec<PhysPageNum>,
    tables: Ghost<Map<int, Seq<int>>>,
}

impl PageTable {
    /// The root frame.
    pub closed spec fn root(&self) -> int {
        self.root_ppn.0 as int
    }

    /// The table frames the page table owns.
    pub closed spec fn owned(&self) -> Set<int> {
        self.tables@.dom()
    }

    /// The page table's invariant with respect to physical memory: its tables
    /// form a tree of handed-out frames, each recorded as owned.
    pub closed spec fn wf(&self, mem: &PhysMem) -> bool {
        &&& mem.wf()
        &&& wf_tree(mem.ptes(), self.root(), self.tables@)
        &&& tables_in_range(self.tables@, mem.ptes().len() as int)
        &&& self.tables@.dom().finite()
        &&& forall|f: int| #[trigger] self.tables@.contains_key(f) ==> mem.is_allocated(f)
        &&& forall|k: int|
            0 <= k < self.frames@.len() ==> self.tables@.contains_key(#[trigger] self.frames@[k].0 as int)
        &&& forall|f: int|
            #[trigger] self.tables@.contains_key(f) ==> exists|k: int|
                0 <= k < self.frames@.len() && self.frames@[k].0 == f
        &&& forall|k: int, l: int|
            0 <= k < self.frames@.len() && 0 <= l < self.frames@.len() && k != l ==> #[trigger] self.frames@[k]
                != #[trigger] self.frames@[l]
        &&& forall|f: int, i: int|
            self.tables@.contains_key(f) && self.tables@[f].len() < 2 && 0 <= i < 512 ==> !(
            #[trigger] pte_at(mem.ptes(), f, i)).valid() || !pte_at(mem.ptes(), f, i).is_leaf()
    }

    /// A page table is well formed only over well-formed memory.
    pub proof fn lemma_mem_wf(&self, mem: &PhysMem)
        requires
            self.wf(mem),
        ensures
            mem.wf(),
            forall|f: int| #[trigger] self.owned().contains(f) ==> mem.is_allocated(f),
            forall|f: int| #[trigger] self.owned().contains(f) ==> 0 <= f < mem.frame_count(),
            self.owned().finite(),
    {
        assert forall|f: int| #[trigger] self.owned().contains(f) implies mem.is_allocated(f) && 0 <= f
            < mem.frame_count() by {
            assert(self.tables@.contains_key(f));
            assert(f * 512 + 512 <= mem.ptes().len());
            assert(f < mem.frame_count()) by (nonlinear_arith)
                requires
                    f * 512 + 512 <= mem.frame_count() * 512,
            ;
        }
    }

    /// A page table stays well formed when only the allocation of frames it
    /// does not own changes.
    pub proof fn lemma_wf_other_frames(&self, m1: &PhysMem, m2: &PhysMem)
        requires
            self.wf(m1),
            m2.wf(),
            m2.frame_count() == m1.frame_count(),
            forall|f: int, i: int|
                self.owned().contains(f) && 0 <= i < 512 ==> #[trigger] pte_at(m2.ptes(), f, i) == pte_at(
                    m1.ptes(),
                    f,
                    i,
                ),
            forall|f: int| #[trigger] self.owned().contains(f) ==> m2.is_allocated(f),
        ensures
            self.wf(m2),
            self.mapped(m2) == self.mapped(m1),
    {
        assert forall|f: int| #[trigger] self.tables@.contains_key(f) implies m2.is_allocated(f) by {
            assert(self.owned().contains(f));
        }
        assert forall|f: int, i: int|
            self.tables@.contains_key(f) && 0 <= i < 512 implies #[trigger] pte_at(m2.ptes(), f, i)
            == pte_at(m1.ptes(), f, i) by {
            assert(self.owned().contains(f));
        }
        lemma_agree(m1.ptes(), m2.ptes(), self.root(), self.tables@);
    }

    /// The owned tables never map large pages, so no walk is blocked.
    pub proof fn lemma_never_blocked(&self, mem: &PhysMem, vpn: int)
        requires
            self.wf(mem),
        ensures
            !walk_blocked(mem.ptes(), self.root(), vpn),
    {
        let m = mem.ptes();
        assert(self.tables@[self.root()].len() == 0);
        let e0 = pte_at(m, self.root(), vpn_index(vpn, 0));
        assert(!e0.valid() || !e0.is_leaf());
        if let Some(t1) = next_table(m, self.root(), vpn_index(vpn, 0)) {
            assert(self.tables@.contains_key(t1) && self.tables@[t1].len() == 1);
            let e1 = pte_at(m, t1, vpn_index(vpn, 1));
            assert(!e1.valid() || !e1.is_leaf());
        }
    }

    /// The pages this page table maps, each with its entry.
    pub open spec fn mapped(&self, mem: &PhysMem) -> Map<int, PageTableEntry> {
        mappings(mem.ptes(), self.root())
    }

    /// A page table that owns its root frame, freshly handed out and empty.
    pub fn new(mem: &mut PhysMem) -> (r: Self)
        requires
            old(mem).wf(),
            old(mem).free_count() > 0,
        ensures
            r.wf(final(mem)),
            r.mapped(final(mem)) == Map::<int, PageTableEntry>::empty(),
            r.owned() == set![r.root()],
            !old(mem).is_allocated(r.root()),
            final(mem).frame_count() == old(mem).frame_count(),
            final(mem).free_count() == old(mem).free_count() - 1,
            forall|q: int| q != r.root() ==> #[trigger] final(mem).is_allocated(q) == old(mem).is_allocated(q),
            forall|q: int, i: int|
                0 <= q < old(mem).frame_count() && q != r.root() && 0 <= i < 512 ==> #[trigger] pte_at(
                    final(mem).ptes(),
                    q,
                    i,
                ) == pte_at(old(mem).ptes(), q, i),
    {
        let frame = match mem.frame_alloc() {
            Some(f) => f,
            None => {
                assert(false);
                PhysPageNum(0)
            },
        };
        let mut frames = Vec::new();
        frames.push(frame);
        let pt = PageTable {
            root_ppn: frame,
            frames,
            tables: Ghost(Map::empty().insert(frame.0 as int, Seq::empty())),
        };
        proof {
            lemma_slot_in_range(frame.0 as int, 0, mem.frame_count() as int);
            assert forall|j: int| 0 <= j < 512 implies !(#[trigger] pte_at(mem.ptes(), frame.0 as int, j)).valid() by {
                let b = pte_at(mem.ptes(), frame.0 as int, j).bits;
                assert(b == 0);
                assert((b as u8) & 1u8 == 0u8) by (bit_vector)
                    requires
                        b == 0u64,
                ;
            }
            assert(pt.mapped(mem) =~= Map::<int, PageTableEntry>::empty());
            assert(pt.owned() =~= set![pt.root()]);
            assert forall|f: int| #[trigger] pt.tables@.contains_key(f) implies exists|k: int|
                0 <= k < pt.frames@.len() && pt.frames@[k].0 == f by {
                assert(pt.frames@[0].0 == f);
            }
        }
        pt
    }

    /// Give the page table's own frames, its root and every table under it,
    /// back to the allocator. The entries in memory are left as they are.
    pub fn release(self, mem: &mut PhysMem)
        requires
            self.wf(old(mem)),
        ensures
            final(mem).wf(),
            final(mem).frame_count() == old(mem).frame_count(),
            final(mem).ptes() == old(mem).ptes(),
            forall|q: int|
                #[trigger] final(mem).is_allocated(q) == (old(mem).is_allocated(q) && !self.owned().contains(q)),
    {
        let ghost mem0 = *mem;
        let mut k: usize = 0;
        while k < self.frames.len()
            invariant
                self.wf(&mem0),
                mem0 == *old(mem),
                mem.wf(),
                k <= self.frames@.len(),
                mem.frame_count() == mem0.frame_count(),
                mem.ptes() == mem0.ptes(),
                forall|q: int|
                    #[trigger] mem.is_allocated(q) == (mem0.is_allocated(q) && !exists|j: int|
                        0 <= j < k && self.frames@[j].0 == q),
            decreases self.frames@.len() - k,
        {
            let f = self.frames[k];
            proof {
                assert(self.tables@.contains_key(f.0 as int));
                assert(mem0.is_allocated(f.0 as int));
                if exists|j: int| 0 <= j < k && self.frames@[j].0 == f.0 {
                    let j = choose|j: int| 0 <= j < k && self.frames@[j].0 == f.0;
                    assert(self.frames@[j] == self.frames@[k as int]);
                }
            }
            let ghost before = *mem;
            mem.frame_dealloc(f);
            proof {
                assert forall|q: int|
                    #[trigger] mem.is_allocated(q) == (mem0.is_allocated(q) && !exists|j: int|
                        0 <= j < k + 1 && self.frames@[j].0 == q) by {
                    if q == f.0 {
                        assert(self.frames@[k as int].0 == q);
                    } else {
                        assert(mem.is_allocated(q) == before.is_allocated(q));
                        if exists|j: int| 0 <= j < k + 1 && self.frames@[j].0 == q {
                            let j = choose|j: int| 0 <= j < k + 1 && self.frames@[j].0 == q;
                            assert(j != k);
                        }
                    }
                }
            }
            k = k + 1;
        }
        proof {
            assert forall|q: int| #[trigger] mem.is_allocated(q) == (mem0.is_allocated(q) && !self.owned().contains(q)) by {
                if self.owned().contains(q) {
                    let j = choose|j: int| 0 <= j < self.frames@.len() && self.frames@[j].0 == q;
                }
                if exists|j: int| 0 <= j < self.frames@.len() && self.frames@[j].0 == q {
                    let j = choose|j: int| 0 <= j < self.frames@.len() && self.frames@[j].0 == q;
                    assert(self.tables@.contains_key(self.frames@[j].0 as int));
                }
            }
        }
    }

    /// A view of the page table whose root is given by a `satp` token; it
    /// owns no frames.
    pub fn from_token(satp: u64) -> (r: Self)
        ensures
            r.root() == satp & SATP_PPN_MASK,
            r.owned() == Set::<int>::empty(),
    {
        let r = Self {
            root_ppn: PhysPageNum(satp & SATP_PPN_MASK),
            frames: Vec::new(),
            tables: Ghost(Map::empty()),
        };
        assert(r.owned() =~= Set::<int>::empty());
        r
    }

    /// The `satp` token that selects this page table with Sv39 paging.
    pub fn token(&self) -> (r: u64)
        ensures
            r == SATP_SV39 | (self.root() as u64),
    {
        SATP_SV39 | self.root_ppn.0
    }

    /// The last-level slot for `vpn`: its table and index, if the walk
    /// reaches it.
    pub fn find_pte(&self, mem: &PhysMem, vpn: VirtPageNum) -> (r: Option<(PhysPageNum, usize)>)
        requires
            mem.wf(),
            walk_in_range(mem.ptes(), mem.frame_count() as int, self.root(), vpn.0 as int),
        ensures
            match leaf_slot(mem.ptes(), self.root(), vpn.0 as int) {
                None => r is None,
                Some(slot) => r matches Some(p) && p.0.0 == slot.0 && p.1 == slot.1,
            },
    {
        let idx = vpn.indexes();
        let e0 = mem.read(self.root_ppn, idx[0]);
        if !e0.is_valid() || e0.flags().intersects(PTEFlags::R | PTEFlags::W | PTEFlags::X) {
            return None;
        }
        let t1 = e0.ppn();
        let e1 = mem.read(t1, idx[1]);
        if !e1.is_valid() || e1.flags().intersects(PTEFlags::R | PTEFlags::W | PTEFlags::X) {
            return None;
        }
        Some((e1.ppn(), idx[2]))
    }

    /// A copy of the last-level entry for `vpn`, if the walk reaches one; it
    /// need not be valid.
    pub fn translate(&self, mem: &PhysMem, vpn: VirtPageNum) -> (r: Option<PageTableEntry>)
        requires
            mem.wf(),
            walk_in_range(mem.ptes(), mem.frame_count() as int, self.root(), vpn.0 as int),
        ensures
            r == lookup(mem.ptes(), self.root(), vpn.0 as int),
    {
        match self.find_pte(mem, vpn) {
            None => None,
            Some((ppn, index)) => Some(mem.read(ppn, index)),
        }
    }

    /// The walk of every page of a well-formed page table stays in memory.
    pub proof fn lemma_walks_in_range(&self, mem: &PhysMem, vpn: int)
        requires
            self.wf(mem),
        ensures
            walk_in_range(mem.ptes(), mem.frame_count() as int, self.root(), vpn),
    {
        let m = mem.ptes();
        assert(self.tables@.contains_key(self.root()));
        lemma_slot_in_range(0, 0, 1);
        if let Some(t1) = next_table(m, self.root(), vpn_index(vpn, 0)) {
            assert(self.tables@.contains_key(t1));
            if let Some(t2) = next_table(m, t1, vpn_index(vpn, 1)) {
                assert(self.tables@.contains_key(t2));
            }
        }
    }

    /// Follow entry `i` of the owned table `table` to the next-level table,
    /// allocating and linking an empty table if the entry is invalid. `None`
    /// when the entry maps a large page or no frame is free.
    fn descend_create(
        &mut self,
        mem: &mut PhysMem,
        table: PhysPageNum,
        i: usize,
        Ghost(path): Ghost<Seq<int>>,
    ) -> (r: Option<PhysPageNum>)
        requires
            old(self).wf(old(mem)),
            old(self).tables@.contains_key(table.0 as int),
            old(self).tables@[table.0 as int] == path,
            path.len() < 2,
            i < 512,
        ensures
            final(self).wf(final(mem)),
            final(self).root() == old(self).root(),
            final(self).mapped(final(mem)) == old(self).mapped(old(mem)),
            forall|f: int|
                #[trigger] old(self).tables@.contains_key(f) ==> final(self).tables@.contains_key(f)
                    && final(self).tables@[f] == old(self).tables@[f],
            ({
                let e = pte_at(old(mem).ptes(), table.0 as int, i as int);
                &&& e.valid() && e.is_leaf() ==> r is None && *final(mem) == *old(mem)
                    && final(self).tables@ == old(self).tables@
                &&& e.valid() && !e.is_leaf() ==> r == Some(PhysPageNum(pte_ppn(e.bits)))
                    && *final(mem) == *old(mem) && final(self).tables@ == old(self).tables@
                &&& !e.valid() && old(mem).free_count() == 0 ==> r is None && *final(mem) == *old(
                    mem,
                ) && final(self).tables@ == old(self).tables@
                &&& !e.valid() && old(mem).free_count() > 0 ==> (r matches Some(t) && {
                    &&& !old(mem).is_allocated(t.0 as int)
                    &&& final(mem).is_allocated(t.0 as int)
                    &&& final(mem).free_count() == old(mem).free_count() - 1
                    &&& forall|q: int|
                        q != t.0 ==> #[trigger] final(mem).is_allocated(q) == old(mem).is_allocated(q)
                    &&& final(self).tables@ == old(self).tables@.insert(t.0 as int, path.push(i as int))
                    &&& forall|j: int| 0 <= j < 512 ==> #[trigger] pte_at(final(mem).ptes(), t.0 as int, j).bits == 0
                    &&& next_table(final(mem).ptes(), table.0 as int, i as int) == Some(t.0 as int)
                    &&& forall|f: int, j: int|
                        old(self).tables@.contains_key(f) && 0 <= j < 512 && !(f == table.0 && j == i) ==> #[trigger] pte_at(
                            final(mem).ptes(),
                            f,
                            j,
                        ) == pte_at(old(mem).ptes(), f, j)
                    &&& forall|q: int, j: int|
                        0 <= q < old(mem).frame_count() && !final(self).tables@.contains_key(q) && 0 <= j < 512 ==> #[trigger] pte_at(
                            final(mem).ptes(),
                            q,
                            j,
                        ) == pte_at(old(mem).ptes(), q, j)
                    &&& final(mem).frame_count() == old(mem).frame_count()
                })
            }),
    {
        proof {
            lemma_slot_in_range(0, 0, 1);
            assert(table.0 * 512 + 512 <= mem.ptes().len());
        }
        let e = mem.read(table, i);
        if e.is_valid() {
            if e.flags().intersects(PTEFlags::R | PTEFlags::W | PTEFlags::X) {
                return None;
            }
            return Some(e.ppn());
        }
        let ghost m0 = mem.ptes();
        let ghost t0 = self.tables@;
        let frame = match mem.frame_alloc() {
            Some(f) => f,
            None => {
                return None;
            },
        };
        let ghost m1 = mem.ptes();
        proof {
            assert(!t0.contains_key(frame.0 as int));
            assert forall|f: int, j: int| t0.contains_key(f) && 0 <= j < 512 implies #[trigger] pte_at(m1, f, j)
                == pte_at(m0, f, j) by {
                assert(f * 512 + 512 <= m0.len());
                assert(f < mem.frame_count()) by (nonlinear_arith)
                    requires
                        f * 512 + 512 <= m0.len(),
                        m0.len() == mem.frame_count() * 512,
                ;
            }
            lemma_agree(m0, m1, self.root(), t0);
            assert forall|j: int| 0 <= j < 512 implies !(#[trigger] pte_at(m1, frame.0 as int, j)).valid() by {
                lemma_zero_entry(pte_at(m1, frame.0 as int, j));
            }
            lemma_slot_in_range(frame.0 as int, 0, mem.frame_count() as int);
        }
        let link = PageTableEntry::new(frame, PTEFlags::from_bits_truncate(PTEFlags::V));
        mem.write(table, i, link);
        self.frames.push(frame);
        proof {
            let m2 = mem.ptes();
            lemma_pte_bits(frame.0, PTEFlags::V);
            let lb = link.bits;
            assert(pte_flags(lb) == 1u8);
            assert((lb as u8) & 1u8 != 0u8 && (lb as u8) & (2u8 | 4u8 | 8u8) == 0u8) by (bit_vector)
                requires
                    (lb as u8) == 1u8,
            ;
            lemma_slot_in_range(table.0 as int, i as int, mem.frame_count() as int);
            assert(pte_at(m2, table.0 as int, i as int) == link);
            assert(next_table(m2, table.0 as int, i as int) == Some(frame.0 as int));
            lemma_link_table(m1, m2, self.root(), t0, table.0 as int, i as int, frame.0 as int);
            self.tables@ = t0.insert(frame.0 as int, path.push(i as int));
            assert forall|f: int, j: int|
                t0.contains_key(f) && 0 <= j < 512 && !(f == table.0 && j == i) implies #[trigger] pte_at(
                m2,
                f,
                j,
            ) == pte_at(m0, f, j) by {
                if f * 512 + j == table.0 * 512 + i {
                    lemma_slots_distinct(f, j, table.0 as int, i as int);
                }
                assert(pte_at(m2, f, j) == pte_at(m1, f, j));
            }
            assert forall|q: int, j: int|
                0 <= q < mem.frame_count() && !self.tables@.contains_key(q) && 0 <= j < 512 implies #[trigger] pte_at(
                m2,
                q,
                j,
            ) == pte_at(m0, q, j) by {
                lemma_slot_in_range(q, j, mem.frame_count() as int);
                if q * 512 + j == table.0 * 512 + i {
                    lemma_slots_distinct(q, j, table.0 as int, i as int);
                }
                assert(q != frame.0);
                assert(pte_at(m1, q, j) == pte_at(m0, q, j));
                assert(pte_at(m2, q, j) == pte_at(m1, q, j));
            }
            assert forall|j: int| 0 <= j < 512 implies #[trigger] pte_at(m2, frame.0 as int, j).bits == 0 by {
                if frame.0 * 512 + j == table.0 * 512 + i {
                    lemma_slots_distinct(frame.0 as int, j, table.0 as int, i as int);
                }
                lemma_slot_in_range(frame.0 as int, j, mem.frame_count() as int);
                assert(pte_at(m1, frame.0 as int, j).bits == 0);
                assert(pte_at(m2, frame.0 as int, j) == pte_at(m1, frame.0 as int, j));
            }
            assert forall|k: int|
                0 <= k < self.frames@.len() implies self.tables@.contains_key(#[trigger] self.frames@[k].0 as int) by {
                if k < self.frames@.len() - 1 {
                    assert(self.frames@[k] == old(self).frames@[k]);
                }
            }
            assert forall|k: int, l: int|
                0 <= k < self.frames@.len() && 0 <= l < self.frames@.len() && k != l implies #[trigger] self.frames@[k]
                    != #[trigger] self.frames@[l] by {
                let n = self.frames@.len() - 1;
                if k < n && l < n {
                    assert(self.frames@[k] == old(self).frames@[k]);
                    assert(self.frames@[l] == old(self).frames@[l]);
                } else if k < n {
                    assert(self.frames@[k] == old(self).frames@[k]);
                    assert(old(self).tables@.contains_key(old(self).frames@[k].0 as int));
                } else if l < n {
                    assert(self.frames@[l] == old(self).frames@[l]);
                    assert(old(self).tables@.contains_key(old(self).frames@[l].0 as int));
                }
            }
            assert forall|f: int| #[trigger] self.tables@.contains_key(f) implies exists|k: int|
                0 <= k < self.frames@.len() && self.frames@[k].0 == f by {
                if f == frame.0 {
                    assert(self.frames@[self.frames@.len() - 1].0 == f);
                } else {
                    let k = choose|k: int| 0 <= k < old(self).frames@.len() && old(self).frames@[k].0 == f;
                    assert(self.frames@[k] == old(self).frames@[k]);
                }
            }
            assert forall|f: int, j: int|
                self.tables@.contains_key(f) && self.tables@[f].len() < 2 && 0 <= j < 512 implies !(
                #[trigger] pte_at(m2, f, j)).valid() || !pte_at(m2, f, j).is_leaf() by {
                if f == frame.0 {
                    lemma_zero_entry(pte_at(m2, f, j));
                } else if f == table.0 && j == i {
                } else {
                    assert(pte_at(m2, f, j) == pte_at(m0, f, j));
                    assert(t0.contains_key(f) && t0[f].len() < 2);
                }
            }
        }
        Some(frame)
    }

    /// Map `vpn` to `ppn` with `flags` and the valid flag, allocating missing
    /// table frames. `None` when `vpn` is already mapped, when a large page
    /// lies on its walk, or when too few frames are free; the mappings are
    /// then unchanged.
    pub fn map(&mut self, mem: &mut PhysMem, vpn: VirtPageNum, ppn: PhysPageNum, flags: PTEFlags) -> (r:
        Option<()>)
        requires
            old(self).wf(old(mem)),
            vpn.0 < VPN_LIMIT,
            ppn.0 < PPN_LIMIT,
        ensures
            final(self).wf(final(mem)),
            final(self).root() == old(self).root(),
            r is None <==> (old(self).mapped(old(mem)).contains_key(vpn.0 as int) || walk_blocked(
                old(mem).ptes(),
                old(self).root(),
                vpn.0 as int,
            ) || old(mem).free_count() < frames_needed(old(mem).ptes(), old(self).root(), vpn.0 as int)),
            r is Some ==> final(self).mapped(final(mem)) == old(self).mapped(old(mem)).insert(
                vpn.0 as int,
                PageTableEntry { bits: pte_bits(ppn.0, flags.value() | PTEFlags::V) },
            ),
            r is None ==> final(self).mapped(final(mem)) == old(self).mapped(old(mem)),
            old(self).owned().subset_of(final(self).owned()),
            forall|q: int|
                #[trigger] final(self).owned().contains(q) && !old(self).owned().contains(q)
                    ==> !old(mem).is_allocated(q) && final(mem).is_allocated(q),
            forall|q: int|
                !(final(self).owned().contains(q) && !old(self).owned().contains(q))
                    ==> #[trigger] final(mem).is_allocated(q) == old(mem).is_allocated(q),
            final(mem).frame_count() == old(mem).frame_count(),
            final(mem).free_count() + final(self).owned().len() == old(mem).free_count() + old(
                self,
            ).owned().len(),
            final(self).owned().len() <= old(self).owned().len() + 2,
            final(self).owned().finite(),
            forall|q: int, j: int|
                0 <= q < old(mem).frame_count() && !final(self).owned().contains(q) && 0 <= j < 512 ==> #[trigger] pte_at(
                    final(mem).ptes(),
                    q,
                    j,
                ) == pte_at(old(mem).ptes(), q, j),
    {
        let ghost m0 = mem.ptes();
        let ghost tb0 = self.tables@;
        let ghost v = vpn.0 as int;
        let ghost i0 = vpn_index(v, 0);
        let ghost i1 = vpn_index(v, 1);
        let ghost i2 = vpn_index(v, 2);
        let ghost root = self.root();
        let idx = vpn.indexes();
        let root_ppn = self.root_ppn;
        let t1 = match self.descend_create(mem, root_ppn, idx[0], Ghost(Seq::empty())) {
            Some(t) => t,
            None => {
                return None;
            },
        };
        let ghost m1 = mem.ptes();
        let ghost tb1 = self.tables@;
        let ghost alloc1 = !pte_at(m0, root, i0).valid();
        proof {
            assert(Seq::<int>::empty().push(i0) =~= seq![i0]);
            assert(next_table(m1, root, i0) == Some(t1.0 as int));
            assert(tb1.contains_key(t1.0 as int) && tb1[t1.0 as int] == seq![i0]);
            if alloc1 {
                assert(!tb0.contains_key(t1.0 as int));
                assert(tb1.dom() =~= tb0.dom().insert(t1.0 as int));
            }
        }
        let t2 = match self.descend_create(mem, t1, idx[1], Ghost(Seq::empty().push(i0))) {
            Some(t) => t,
            None => {
                proof {
                    if alloc1 {
                        lemma_zero_entry(pte_at(m1, t1.0 as int, i1));
                    } else {
                        assert(m1 == m0);
                    }
                }
                return None;
            },
        };
        let ghost m2 = mem.ptes();
        let ghost tb2 = self.tables@;
        let ghost alloc2 = !pte_at(m1, t1.0 as int, i1).valid();
        proof {
            assert(Seq::<int>::empty().push(i0).push(i1) =~= seq![i0, i1]);
            assert(root != t1.0);
            assert(pte_at(m2, root, i0) == pte_at(m1, root, i0));
            assert(next_table(m2, t1.0 as int, i1) == Some(t2.0 as int));
            assert(leaf_slot(m2, root, v) == Some((t2.0 as int, i2)));
            assert(tb2.contains_key(t2.0 as int) && tb2[t2.0 as int] == seq![i0, i1]);
            if alloc2 {
                assert(!tb1.contains_key(t2.0 as int));
                assert(tb2.dom() =~= tb1.dom().insert(t2.0 as int));
            }
            if alloc1 {
                lemma_zero_entry(pte_at(m1, t1.0 as int, i1));
            }
            self.lemma_walks_in_range(mem, v);
        }
        let e = mem.read(t2, idx[2]);
        if e.is_valid() {
            proof {
                if alloc2 {
                    lemma_zero_entry(pte_at(m2, t2.0 as int, i2));
                }
                assert(!alloc1 && !alloc2);
                assert(m2 == m0);
                assert(lookup(m0, root, v) == Some(e));
            }
            return None;
        }
        let ghost m2b = m2;
        let leaf = PageTableEntry::new(ppn, flags.union(PTEFlags::V));
        mem.write(t2, idx[2], leaf);
        proof {
            let m3 = mem.ptes();
            let fv = flags.value();
            let f = fv | PTEFlags::V;
            lemma_pte_bits(ppn.0, f);
            assert(f & 1u8 != 0u8) by (bit_vector)
                requires
                    f == fv | 1u8,
            ;
            assert(leaf.valid());
            lemma_set_leaf(m2, m3, root, tb2, v, leaf);
            assert(!old(self).mapped(old(mem)).contains_key(v)) by {
                if !alloc1 && !alloc2 {
                    assert(m2 == m0);
                    assert(lookup(m0, root, v) == Some(e));
                } else if alloc1 {
                    assert(lookup(m0, root, v) is None);
                } else {
                    assert(m1 == m0);
                    assert(lookup(m0, root, v) is None);
                }
            }
            if alloc1 {
                lemma_zero_entry(pte_at(m1, t1.0 as int, i1));
            }
            assert forall|q: int, j: int|
                0 <= q < old(mem).frame_count() && !self.tables@.contains_key(q) && 0 <= j < 512 implies #[trigger] pte_at(
                m3,
                q,
                j,
            ) == pte_at(m0, q, j) by {
                lemma_slot_in_range(q, j, mem.frame_count() as int);
                if q * 512 + j == t2.0 * 512 + i2 {
                    lemma_slots_distinct(q, j, t2.0 as int, i2);
                }
                assert(pte_at(m3, q, j) == pte_at(m2, q, j));
                assert(pte_at(m2, q, j) == pte_at(m1, q, j));
            }
            assert forall|f: int, j: int|
                tb2.contains_key(f) && tb2[f].len() < 2 && 0 <= j < 512 implies !(
                #[trigger] pte_at(m3, f, j)).valid() || !pte_at(m3, f, j).is_leaf() by {
                assert(f != t2.0);
                if f * 512 + j == t2.0 * 512 + i2 {
                    lemma_slots_distinct(f, j, t2.0 as int, i2);
                }
                assert(pte_at(m3, f, j) == pte_at(m2, f, j));
            }
        }
        Some(())
    }

    /// Remove the mapping of the mapped page `vpn`; other mappings stay.
    pub fn unmap(&mut self, mem: &mut PhysMem, vpn: VirtPageNum)
        requires
            old(self).wf(old(mem)),
            vpn.0 < VPN_LIMIT,
            old(self).mapped(old(mem)).contains_key(vpn.0 as int),
        ensures
            final(self).wf(final(mem)),
            final(self).root() == old(self).root(),
            final(self).owned() == old(self).owned(),
            final(self).mapped(final(mem)) == old(self).mapped(old(mem)).remove(vpn.0 as int),
            final(mem).frame_count() == old(mem).frame_count(),
            final(mem).free_count() == old(mem).free_count(),
            forall|q: int| #[trigger] final(mem).is_allocated(q) == old(mem).is_allocated(q),
            forall|q: int, j: int|
                0 <= q < old(mem).frame_count() && !final(self).owned().contains(q) && 0 <= j < 512 ==> #[trigger] pte_at(
                    final(mem).ptes(),
                    q,
                    j,
                ) == pte_at(old(mem).ptes(), q, j),
    {
        let ghost m0 = mem.ptes();
        proof {
            self.lemma_walks_in_range(mem, vpn.0 as int);
        }
        let (ppn, index) = match self.find_pte(mem, vpn) {
            Some(slot) => slot,
            None => {
                assert(false);
                return ;
            },
        };
        let empty = PageTableEntry::empty();
        mem.write(ppn, index, empty);
        proof {
            let m1 = mem.ptes();
            lemma_set_leaf(m0, m1, self.root(), self.tables@, vpn.0 as int, empty);
            let t1 = next_table(m0, self.root(), vpn_index(vpn.0 as int, 0)).unwrap();
            assert(self.tables@.contains_key(t1));
            assert(self.tables@.contains_key(ppn.0 as int));
            assert forall|q: int, j: int|
                0 <= q < mem.frame_count() && !self.owned().contains(q) && 0 <= j < 512 implies #[trigger] pte_at(
                m1,
                q,
                j,
            ) == pte_at(m0, q, j) by {
                lemma_slot_in_range(q, j, mem.frame_count() as int);
                if q * 512 + j == ppn.0 * 512 + index {
                    lemma_slots_distinct(q, j, ppn.0 as int, index as int);
                }
            }
            assert forall|f: int, j: int|
                self.tables@.contains_key(f) && self.tables@[f].len() < 2 && 0 <= j < 512 implies !(
                #[trigger] pte_at(m1, f, j)).valid() || !pte_at(m1, f, j).is_leaf() by {
                assert(f != ppn.0);
                if f * 512 + j == ppn.0 * 512 + index {
                    lemma_slots_distinct(f, j, ppn.0 as int, index as int);
                }
                assert(pte_at(m1, f, j) == pte_at(m0, f, j));
            }
        }
    }

    /// Translate the user address `addr` for an access that needs the flags
    /// `permission`: the physical address with the same page offset, when
    /// `addr` is a canonical Sv39 address whose page is mapped with the valid,
    /// user and requested flags; `None` otherwise.
    pub fn translate_user(&self, mem: &PhysMem, addr: u64, permission: PTEFlags) -> (r: Option<PhysAddr>)
        requires
            mem.wf(),
            walk_in_range(
                mem.ptes(),
                mem.frame_count() as int,
                self.root(),
                (addr % VA_LIMIT) as int / PAGE_BYTES as int,
            ),
        ensures
            r == user_translation(mem.ptes(), self.root(), addr, permission.value()),
    {
        let va = VirtAddr::from_usize(addr);
        if va.to_usize() != addr {
            return None;
        }
        let pte = match self.translate(mem, va.floor()) {
            Some(e) => e,
            None => {
                return None;
            },
        };
        let need = PTEFlags::V | PTEFlags::U | permission.bits();
        if !pte.flags().contains(need) {
            return None;
        }
        let page = pte.ppn();
        let page_start = page.start_addr();
        Some(PhysAddr(page_start.0 + va.page_offset()))
    }
}

/// What `translate_user` gives for `addr` and the flags `perm`.
pub open spec fn user_translation(mem: Seq<PageTableEntry>, root: int, addr: u64, perm: u8) -> Option<
    PhysAddr,
> {
    let va = addr % VA_LIMIT;
    let need = PTEFlags::V | PTEFlags::U | perm;
    if sign_extend(va) != addr {
        None
    } else {
        match lookup(mem, root, (va / PAGE_BYTES) as int) {
            None => None,
            Some(e) => if pte_flags(e.bits) & need == need {
                Some(PhysAddr((pte_ppn(e.bits) * PAGE_BYTES + va % PAGE_BYTES) as u64))
            } else {
                None
            },
        }
    }
}


/// A piece of a user buffer: `len` bytes from byte `offset` of physical page
/// `ppn`.
#[derive(Copy, Clone, PartialEq, Eq, Structural)]
pub struct BufferSegment {
    /// The physical page.
    pub ppn: PhysPageNum,
    /// The first byte within the page.
    pub offset: u64,
    /// The number of bytes.
    pub len: u64,
}

/// The total length of a list of segments.
pub open spec fn seg_total(segs: Seq<BufferSegment>) -> int
    decreases segs.len(),
{
    if segs.len() == 0 {
        0
    } else {
        seg_total(segs.drop_last()) + segs.last().len
    }
}

/// The virtual page that holds the user address `addr`.
pub open spec fn user_page(addr: int) -> int {
    (addr % VA_LIMIT as int) / PAGE_BYTES as int
}

/// Every byte of `[ptr, ptr + len)` lies in a page that the table rooted at
/// `root` maps with a valid entry.
pub open spec fn buffer_mapped(mem: Seq<PageTableEntry>, frames: int, root: int, ptr: int, len: int) -> bool {
    forall|a: int|
        ptr <= a < ptr + len ==> walk_in_range(mem, frames, root, #[trigger] user_page(a)) && lookup(
            mem,
            root,
            user_page(a),
        ) is Some && lookup(mem, root, user_page(a)).unwrap().valid()
}

/// Segment `k` of a translation of `[ptr, end)` starts where the earlier ones
/// end, stays within its page, runs to the page's end or to `end`, and lies
/// in the physical page that the page table maps its virtual page to.
pub open spec fn segment_ok(
    mem: Seq<PageTableEntry>,
    root: int,
    segs: Seq<BufferSegment>,
    ptr: int,
    end: int,
    k: int,
) -> bool {
    let start = ptr + seg_total(segs.take(k));
    let seg = segs[k];
    &&& seg.offset == start % PAGE_BYTES as int
    &&& seg.len == if PAGE_BYTES - seg.offset < end - start {
        PAGE_BYTES - seg.offset
    } else {
        end - start
    }
    &&& seg.ppn.0 == pte_ppn(lookup(mem, root, user_page(start)).unwrap().bits)
}

/// Every entry of frame `f` is zero: as a data page, it holds only zero
/// bytes.
pub open spec fn frame_zeroed(mem: Seq<PageTableEntry>, f: int) -> bool {
    forall|j: int| 0 <= j < 512 ==> #[trigger] pte_at(mem, f, j).bits == 0
}

/// Byte `o` (below 4096) of frame `f`: frames hold their words in
/// little-endian order.
pub open spec fn frame_byte(mem: Seq<PageTableEntry>, f: int, o: int) -> u8 {
    ((pte_at(mem, f, o / 8).bits >> (((o % 8) * 8) as u64)) & 0xffu64) as u8
}

/// Frame `f` holds the same contents in `m1` as in `m0`.
pub open spec fn same_frame(m0: Seq<PageTableEntry>, m1: Seq<PageTableEntry>, f: int) -> bool {
    forall|j: int| 0 <= j < 512 ==> #[trigger] pte_at(m1, f, j) == pte_at(m0, f, j)
}

/// The number of pages that the bytes `[ptr, ptr + len)` touch.
pub open spec fn pages_touched(ptr: int, len: int) -> int {
    if len <= 0 {
        0
    } else {
        (ptr + len - 1) / (PAGE_BYTES as int) - ptr / (PAGE_BYTES as int) + 1
    }
}

/// The number of segments that cover `[ptr, start)`, when `start` is `ptr`
/// or a page boundary.
proof fn lemma_segment_step(ptr: int, start: int, end: int, count: int)
    requires
        0 <= ptr <= start < end,
        start == ptr || start % 4096 == 0,
        count == if 4096 - start % 4096 < end - start {
            4096 - start % 4096
        } else {
            end - start
        },
    ensures
        (start + count - 1) / 4096 == start / 4096,
        start != ptr ==> (start - 1) / 4096 + 1 == start / 4096,
        start + count == end || (start + count) % 4096 == 0,
        count > 0,
{
    assert((start + count - 1) / 4096 == start / 4096) by (nonlinear_arith)
        requires
            0 <= start,
            1 <= count <= 4096 - start % 4096,
    ;
    if start != ptr {
        assert((start - 1) / 4096 + 1 == start / 4096) by (nonlinear_arith)
            requires
                start > 0,
                start % 4096 == 0,
        ;
    }
    if count == 4096 - start % 4096 {
        assert((start + count) % 4096 == 0) by (nonlinear_arith)
            requires
                0 <= start,
                count == 4096 - start % 4096,
        ;
    }
}

/// Describe the user buffer `[ptr, ptr + len)` of the address space with
/// token `token` as segments of physical pages, in address order, covering it
/// exactly; pages need not be physically contiguous.
pub fn translated_byte_buffer(mem: &PhysMem, token: u64, ptr: u64, len: u64) -> (r: Vec<
    BufferSegment,
>)
    requires
        mem.wf(),
        ptr + len <= u64::MAX,
        buffer_mapped(
            mem.ptes(),
            mem.frame_count() as int,
            (token & SATP_PPN_MASK) as int,
            ptr as int,
            len as int,
        ),
    ensures
        seg_total(r@) == len,
        forall|k: int|
            0 <= k < r@.len() ==> #[trigger] segment_ok(
                mem.ptes(),
                (token & SATP_PPN_MASK) as int,
                r@,
                ptr as int,
                ptr + len,
                k,
            ),
        r@.len() == pages_touched(ptr as int, len as int),
{
    let page_table = PageTable::from_token(token);
    let ghost root = page_table.root();
    let mut buffers: Vec<BufferSegment> = Vec::new();
    let mut start = ptr;
    let end = ptr + len;
    while start < end
        invariant
            mem.wf(),
            page_table.root() == root,
            root == (token & SATP_PPN_MASK) as int,
            end == ptr + len,
            ptr <= start <= end,
            start == ptr + seg_total(buffers@),
            buffer_mapped(mem.ptes(), mem.frame_count() as int, root, ptr as int, len as int),
            forall|k: int| 0 <= k < buffers@.len() ==> #[trigger] segment_ok(mem.ptes(), root, buffers@, ptr as int, end as int, k),
            start == ptr || start % 4096 == 0 || start == end,
            buffers@.len() == if start == ptr {
                0
            } else {
                (start - 1) / 4096 - ptr / 4096 + 1
            },
        decreases end - start,
    {
        let va = VirtAddr::from_usize(start);
        proof {
            assert(user_page(start as int) == va.0 / PAGE_BYTES);
        }
        let pte = match page_table.translate(mem, va.floor()) {
            Some(e) => e,
            None => {
                assert(false);
                return buffers;
            },
        };
        let offset = va.page_offset();
        proof {
            vstd::arithmetic::div_mod::lemma_mod_mod(start as int, 4096, 0x800_0000);
        }
        let count = if PAGE_BYTES - offset < end - start {
            PAGE_BYTES - offset
        } else {
            end - start
        };
        proof {
            lemma_segment_step(ptr as int, start as int, end as int, count as int);
        }
        let ghost before = buffers@;
        buffers.push(BufferSegment { ppn: pte.ppn(), offset, len: count });
        proof {
            assert(buffers@.drop_last() =~= before);
            assert forall|k: int| 0 <= k < buffers@.len() implies segment_ok(
                mem.ptes(),
                root,
                buffers@,
                ptr as int,
                end as int,
                k,
            ) by {
                if k < before.len() {
                    assert(buffers@.take(k) =~= before.take(k));
                    assert(segment_ok(mem.ptes(), root, before, ptr as int, end as int, k));
                } else {
                    assert(buffers@.take(k) =~= before);
                }
            }
        }
        start = start + count;
    }
    buffers
}

} // verus!
