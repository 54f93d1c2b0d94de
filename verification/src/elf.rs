//! The fields of an ELF64 little-endian executable that program loading
//! reads: the entry point and the loadable segments of the program headers.
use vstd::prelude::*;

verus! {

/// Size of the ELF64 file header, in bytes.
pub const EHDR_SIZE: usize = 64;
/// Size of an ELF64 program header, in bytes.
pub const PHDR_SIZE: usize = 56;
/// Program header type of a loadable segment.
pub const PT_LOAD: u64 = 1;
/// Segment flag: executable.
pub const PF_X: u64 = 1;
/// Segment flag: writable.
pub const PF_W: u64 = 2;
/// Segment flag: readable.
pub const PF_R: u64 = 4;
/// User segments lie below this address: the lower half of the Sv39 space.
pub const USER_SPACE_END: u64 = 0x40_0000_0000;

/// 256 to the power `n`.
pub open spec fn pow256(n: nat) -> int
    decreases n,
{
    if n == 0 {
        1
    } else {
        256 * pow256((n - 1) as nat)
    }
}

/// The little-endian number in the `n` bytes of `s` from `off`.
pub open spec fn le_bytes(s: Seq<u8>, off: int, n: nat) -> int
    decreases n,
{
    if n == 0 {
        0
    } else {
        s[off] + 256 * le_bytes(s, off + 1, (n - 1) as nat)
    }
}

/// The entry point of the header.
pub open spec fn e_entry(s: Seq<u8>) -> int {
    le_bytes(s, 24, 8)
}

/// The file offset of the program headers.
pub open spec fn e_phoff(s: Seq<u8>) -> int {
    le_bytes(s, 32, 8)
}

/// The size of a program header entry.
pub open spec fn e_phentsize(s: Seq<u8>) -> int {
    le_bytes(s, 54, 2)
}

/// The number of program headers.
pub open spec fn e_phnum(s: Seq<u8>) -> int {
    le_bytes(s, 56, 2)
}

/// The offset of program header `i`.
pub open spec fn ph_at(s: Seq<u8>, i: int) -> int {
    e_phoff(s) + i * PHDR_SIZE
}

/// The type of program header `i`.
pub open spec fn p_type(s: Seq<u8>, i: int) -> int {
    le_bytes(s, ph_at(s, i), 4)
}

/// The flags of program header `i`.
pub open spec fn p_flags(s: Seq<u8>, i: int) -> int {
    le_bytes(s, ph_at(s, i) + 4, 4)
}

/// The file offset of segment `i`.
pub open spec fn p_offset(s: Seq<u8>, i: int) -> int {
    le_bytes(s, ph_at(s, i) + 8, 8)
}

/// The virtual address of segment `i`.
pub open spec fn p_vaddr(s: Seq<u8>, i: int) -> int {
    le_bytes(s, ph_at(s, i) + 16, 8)
}

/// The size of segment `i` in the file.
pub open spec fn p_filesz(s: Seq<u8>, i: int) -> int {
    le_bytes(s, ph_at(s, i) + 32, 8)
}

/// The size of segment `i` in memory.
pub open spec fn p_memsz(s: Seq<u8>, i: int) -> int {
    le_bytes(s, ph_at(s, i) + 40, 8)
}

/// Program header `i` describes a loadable segment that fits the user half
/// of the address space and whose file bytes lie in the image.
pub open spec fn load_ok(s: Seq<u8>, i: int) -> bool {
    &&& p_vaddr(s, i) + p_memsz(s, i) <= USER_SPACE_END
    &&& p_filesz(s, i) <= p_memsz(s, i)
    &&& p_offset(s, i) + p_filesz(s, i) <= s.len()
}

/// `s` is an ELF64 little-endian image with well-placed program headers,
/// each loadable segment fitting the user half of the address space.
pub open spec fn valid_elf(s: Seq<u8>) -> bool {
    &&& s.len() >= EHDR_SIZE
    &&& s[0] == 0x7f && s[1] == 0x45 && s[2] == 0x4c && s[3] == 0x46
    &&& s[4] == 2 && s[5] == 1
    &&& e_phentsize(s) == PHDR_SIZE
    &&& e_phoff(s) + e_phnum(s) * PHDR_SIZE <= s.len()
    &&& forall|i: int| 0 <= i < e_phnum(s) && p_type(s, i) == PT_LOAD ==> #[trigger] load_ok(s, i)
}

/// The map permissions of a segment with flags `f`: user-accessible, with
/// read, write and execute as the flags say.
pub open spec fn segment_perm(f: int) -> u8 {
    (16u8 | (if (f as u64) & PF_R != 0 { 2u8 } else { 0u8 }) | (if (f as u64) & PF_W != 0 {
        4u8
    } else {
        0u8
    }) | (if (f as u64) & PF_X != 0 { 8u8 } else { 0u8 })) as u8
}

/// The loadable segments among the first `n` program headers, in order, as
/// (first page, page after the last, permissions).
pub open spec fn loads(s: Seq<u8>, n: int) -> Seq<(int, int, u8)>
    decreases n,
{
    if n <= 0 {
        Seq::empty()
    } else if p_type(s, n - 1) == PT_LOAD {
        loads(s, n - 1).push(
            (
                p_vaddr(s, n - 1) / 4096,
                if p_vaddr(s, n - 1) + p_memsz(s, n - 1) == 0 {
                    0
                } else {
                    (p_vaddr(s, n - 1) + p_memsz(s, n - 1) - 1) / 4096 + 1
                },
                segment_perm(p_flags(s, n - 1)),
            ),
        )
    } else {
        loads(s, n - 1)
    }
}

proof fn lemma_le_bound(s: Seq<u8>, off: int, n: nat)
    ensures
        0 <= le_bytes(s, off, n) < pow256(n),
    decreases n,
{
    if n > 0 {
        lemma_le_bound(s, off + 1, (n - 1) as nat);
        let rest = le_bytes(s, off + 1, (n - 1) as nat);
        let p = pow256((n - 1) as nat);
        let b = s[off] as int;
        assert(b + 256 * rest < 256 * p) by (nonlinear_arith)
            requires
                0 <= b < 256,
                0 <= rest < p,
        ;
    }
}

/// The little-endian number in `elf[off..off + n]`, for at most 8 bytes.
pub fn read_le(elf: &Vec<u8>, off: usize, n: usize) -> (r: u64)
    requires
        n <= 8,
        off + n <= elf@.len(),
    ensures
        r == le_bytes(elf@, off as int, n as nat),
{
    let total = elf.len();
    let mut acc: u64 = 0;
    let mut k: usize = n;
    while k > 0
        invariant
            k <= n <= 8,
            off + n <= elf@.len(),
            elf@.len() == total,
            acc == le_bytes(elf@, off + k, (n - k) as nat),
        decreases k,
    {
        proof {
            lemma_le_bound(elf@, off + k, (n - k) as nat);
            reveal_with_fuel(pow256, 8);
            assert(pow256(7) == 0x100_0000_0000_0000);
            lemma_pow_mono((n - k) as nat, 7);
            let b = elf@[off + k - 1] as int;
            assert(acc * 256 + b <= u64::MAX) by (nonlinear_arith)
                requires
                    0 <= acc < 0x100_0000_0000_0000,
                    0 <= b < 256,
            ;
            assert(le_bytes(elf@, off + k - 1, (n - k + 1) as nat) == b + 256 * le_bytes(
                elf@,
                off + k,
                (n - k) as nat,
            ));
        }
        acc = acc * 256 + elf[off + k - 1] as u64;
        k = k - 1;
    }
    acc
}

proof fn lemma_pow_mono(a: nat, b: nat)
    requires
        a <= b,
    ensures
        pow256(a) <= pow256(b),
    decreases b,
{
    if a < b {
        lemma_pow_mono(a, (b - 1) as nat);
        assert(pow256((b - 1) as nat) >= 1) by {
            lemma_pow_pos((b - 1) as nat);
        }
    }
}

proof fn lemma_pow_pos(a: nat)
    ensures
        pow256(a) >= 1,
    decreases a,
{
    if a > 0 {
        lemma_pow_pos((a - 1) as nat);
    }
}

/// Whether `elf` is an ELF64 little-endian image with well-placed program
/// headers whose loadable segments fit the user half of the address space.
pub fn check_elf(elf: &Vec<u8>) -> (r: bool)
    ensures
        r == valid_elf(elf@),
{
    let len = elf.len();
    if len < EHDR_SIZE {
        return false;
    }
    if elf[0] != 0x7f || elf[1] != 0x45 || elf[2] != 0x4c || elf[3] != 0x46 || elf[4] != 2 || elf[5]
        != 1 {
        return false;
    }
    if read_le(elf, 54, 2) != PHDR_SIZE as u64 {
        return false;
    }
    let phoff = read_le(elf, 32, 8);
    let phnum = read_le(elf, 56, 2);
    proof {
        lemma_le_bound(elf@, 56, 2);
        reveal_with_fuel(pow256, 3);
    }
    if phoff > len as u64 || phnum * (PHDR_SIZE as u64) > len as u64 - phoff {
        return false;
    }
    let phoff = phoff as usize;
    let phnum = phnum as usize;
    let mut i: usize = 0;
    while i < phnum
        invariant
            len == elf@.len(),
            phoff == e_phoff(elf@),
            phnum == e_phnum(elf@),
            phoff + phnum * PHDR_SIZE <= len,
            i <= phnum,
            forall|j: int| 0 <= j < i && p_type(elf@, j) == PT_LOAD ==> #[trigger] load_ok(elf@, j),
        decreases phnum - i,
    {
        proof {
            assert(phoff + i * PHDR_SIZE + PHDR_SIZE <= len) by (nonlinear_arith)
                requires
                    phoff + phnum * 56 <= len,
                    i < phnum,
            ;
        }
        let base = phoff + i * PHDR_SIZE;
        assert(base == ph_at(elf@, i as int));
        if read_le(elf, base, 4) == PT_LOAD {
            let offset = read_le(elf, base + 8, 8);
            let vaddr = read_le(elf, base + 16, 8);
            let filesz = read_le(elf, base + 32, 8);
            let memsz = read_le(elf, base + 40, 8);
            if vaddr > USER_SPACE_END || memsz > USER_SPACE_END - vaddr || filesz > memsz || offset
                > len as u64 || filesz > len as u64 - offset {
                assert(!load_ok(elf@, i as int));
                return false;
            }
        }
        i = i + 1;
    }
    true
}

/// The fields read from an image are never negative.
pub proof fn lemma_field_nonneg(s: Seq<u8>, i: int)
    ensures
        p_vaddr(s, i) >= 0,
        p_memsz(s, i) >= 0,
        e_phnum(s) >= 0,
{
    lemma_le_bound(s, 56, 2);
    lemma_le_bound(s, ph_at(s, i) + 16, 8);
    lemma_le_bound(s, ph_at(s, i) + 40, 8);
}

} // verus!
