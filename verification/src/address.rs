//! Sv39 physical and virtual addresses and page numbers.
//!
//! Physical addresses are 56 bits wide and virtual addresses 39 bits, in
//! pages of 4 KiB; page numbers are 44 and 27 bits wide. Addresses are held
//! in 64-bit words.
use vstd::prelude::*;

verus! {

/// Bytes in a page.
pub const PAGE_BYTES: u64 = 4096;
/// Number of distinct virtual page numbers (2^27).
pub const VPN_LIMIT: u64 = 0x800_0000;
/// Number of distinct physical page numbers (2^44).
pub const PPN_LIMIT: u64 = 0x1000_0000_0000;
/// Number of distinct Sv39 virtual addresses (2^39).
pub const VA_LIMIT: u64 = 0x80_0000_0000;
/// Number of distinct physical addresses (2^56).
pub const PA_LIMIT: u64 = 0x100_0000_0000_0000;

/// A physical address.
#[derive(Copy, Clone, PartialEq, Eq, Structural)]
pub struct PhysAddr(pub u64);

/// A virtual address.
#[derive(Copy, Clone, PartialEq, Eq, Structural)]
pub struct VirtAddr(pub u64);

/// A physical page number.
#[derive(Copy, Clone, PartialEq, Eq, Structural)]
pub struct PhysPageNum(pub u64);

/// A virtual page number.
#[derive(Copy, Clone, PartialEq, Eq, Structural)]
pub struct VirtPageNum(pub u64);

/// The canonical 64-bit form of a 39-bit virtual address: bit 38 extended.
pub open spec fn sign_extend(v: u64) -> u64 {
    if v >= VA_LIMIT / 2 {
        (v + (u64::MAX - VA_LIMIT + 1)) as u64
    } else {
        v
    }
}

impl VirtAddr {
    /// The Sv39 virtual address of a 64-bit word: its low 39 bits.
    pub fn from_usize(v: u64) -> (r: Self)
        ensures
            r.0 == v % VA_LIMIT,
    {
        VirtAddr(v % VA_LIMIT)
    }

    /// The 64-bit word of a virtual address, with bit 38 sign-extended.
    pub fn to_usize(self) -> (r: u64)
        requires
            self.0 < VA_LIMIT,
        ensures
            r == sign_extend(self.0),
    {
        if self.0 >= VA_LIMIT / 2 {
            self.0 + (u64::MAX - VA_LIMIT + 1)
        } else {
            self.0
        }
    }

    /// The page that holds this address.
    pub fn floor(&self) -> (r: VirtPageNum)
        ensures
            r.0 == self.0 / PAGE_BYTES,
    {
        VirtPageNum(self.0 / PAGE_BYTES)
    }

    /// The first page boundary at or above this address, as a page number.
    pub fn ceil(&self) -> (r: VirtPageNum)
        ensures
            r.0 == if self.0 == 0 {
                0
            } else {
                (self.0 - 1) / (PAGE_BYTES as int) + 1
            },
    {
        if self.0 == 0 {
            VirtPageNum(0)
        } else {
            VirtPageNum((self.0 - 1) / PAGE_BYTES + 1)
        }
    }

    /// The offset of this address within its page.
    pub fn page_offset(&self) -> (r: u64)
        ensures
            r == self.0 % PAGE_BYTES,
    {
        self.0 % PAGE_BYTES
    }

    /// Whether this address is the start of a page.
    pub fn aligned(&self) -> (r: bool)
        ensures
            r == (self.0 % PAGE_BYTES == 0),
    {
        self.0 % PAGE_BYTES == 0
    }
}

impl VirtPageNum {
    /// The first address of this page.
    pub fn start_addr(self) -> (r: VirtAddr)
        requires
            self.0 < VPN_LIMIT,
        ensures
            r.0 == self.0 * PAGE_BYTES,
    {
        VirtAddr(self.0 * PAGE_BYTES)
    }

    /// The three 9-bit indexes of this page number into the levels of an
    /// Sv39 page table, root level first.
    pub fn indexes(&self) -> (r: [usize; 3])
        ensures
            r@[0] == vpn_index(self.0 as int, 0),
            r@[1] == vpn_index(self.0 as int, 1),
            r@[2] == vpn_index(self.0 as int, 2),
    {
        [
            ((self.0 / 262144) % 512) as usize,
            ((self.0 / 512) % 512) as usize,
            (self.0 % 512) as usize,
        ]
    }
}

/// The index of page number `vpn` at page-table level `level` (0: root).
pub open spec fn vpn_index(vpn: int, level: int) -> int {
    if level == 0 {
        (vpn / 262144) % 512
    } else if level == 1 {
        (vpn / 512) % 512
    } else {
        vpn % 512
    }
}

/// A page number below the limit is determined by its three indexes.
pub proof fn lemma_vpn_indexes_determine(a: int, b: int)
    requires
        0 <= a < VPN_LIMIT,
        0 <= b < VPN_LIMIT,
        vpn_index(a, 0) == vpn_index(b, 0),
        vpn_index(a, 1) == vpn_index(b, 1),
        vpn_index(a, 2) == vpn_index(b, 2),
    ensures
        a == b,
{
    assert(a == (a / 262144) * 262144 + ((a / 512) % 512) * 512 + a % 512) by (nonlinear_arith)
        requires
            0 <= a,
    ;
    assert(b == (b / 262144) * 262144 + ((b / 512) % 512) * 512 + b % 512) by (nonlinear_arith)
        requires
            0 <= b,
    ;
    assert(a / 262144 < 512) by (nonlinear_arith)
        requires
            0 <= a < 0x800_0000,
    ;
    assert(b / 262144 < 512) by (nonlinear_arith)
        requires
            0 <= b < 0x800_0000,
    ;
}

impl PhysPageNum {
    /// The page number of a 64-bit word: its low 44 bits.
    pub fn from_usize(v: u64) -> (r: Self)
        ensures
            r.0 == v % PPN_LIMIT,
    {
        PhysPageNum(v % PPN_LIMIT)
    }

    /// The first address of this page.
    pub fn start_addr(self) -> (r: PhysAddr)
        requires
            self.0 < PPN_LIMIT,
        ensures
            r.0 == self.0 * PAGE_BYTES,
    {
        PhysAddr(self.0 * PAGE_BYTES)
    }
}

} // verus!
