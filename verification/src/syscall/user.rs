//! Copies between the kernel and the user memory of a process: loads and
//! stores of byte strings at user addresses, checked before any byte moves.
use vstd::prelude::*;
use crate::address::VA_LIMIT;
use crate::memory_set::{frame_in_areas, in_areas, range_in_areas, user_byte, MemorySet};
use crate::page_table::{same_frame, PhysMem};
use crate::syscall::process::{check_user_dest, user_dest_ok};

verus! {

/// `v` as `n` little-endian bytes.
pub open spec fn le_encode(v: int, n: nat) -> Seq<u8>
    decreases n,
{
    if n == 0 {
        Seq::empty()
    } else {
        seq![(v % 256) as u8] + le_encode(v / 256, (n - 1) as nat)
    }
}

/// `n` little-endian bytes are `n` bytes long.
pub proof fn lemma_le_encode_len(v: int, n: nat)
    ensures
        le_encode(v, n).len() == n,
    decreases n,
{
    if n > 0 {
        lemma_le_encode_len(v / 256, (n - 1) as nat);
    }
}

/// Append `v` to `out` as `n` little-endian bytes.
pub fn push_le(out: &mut Vec<u8>, v: u64, n: usize)
    ensures
        final(out)@ == old(out)@ + le_encode(v as int, n as nat),
        final(out)@.len() == old(out)@.len() + n,
{
    proof {
        lemma_le_encode_len(v as int, n as nat);
    }
    let mut x = v;
    let mut k: usize = 0;
    while k < n
        invariant
            k <= n,
            out@ + le_encode(x as int, (n - k) as nat) == old(out)@ + le_encode(v as int, n as nat),
        decreases n - k,
    {
        let ghost before = out@;
        out.push((x % 256) as u8);
        proof {
            assert(le_encode(x as int, (n - k) as nat) == seq![(x as int % 256) as u8] + le_encode(
                x as int / 256,
                (n - k - 1) as nat,
            ));
            assert(out@ + le_encode(x as int / 256, (n - k - 1) as nat) =~= before + le_encode(
                x as int,
                (n - k) as nat,
            ));
        }
        x = x / 256;
        k = k + 1;
    }
    assert(out@ + le_encode(x as int, 0) =~= out@);
}

/// The `len` bytes of the user memory of `ms` at `addr`.
pub open spec fn user_bytes(ms: MemorySet, mem: PhysMem, addr: int, len: int) -> Seq<u8> {
    Seq::new(len as nat, |k: int| user_byte(ms, mem, addr + k))
}

/// The kernel may load `len` bytes from user address `addr` of `ms`: each
/// lies in a page of one of its areas.
pub open spec fn user_load_ok(ms: MemorySet, addr: int, len: int) -> bool {
    &&& addr + len <= VA_LIMIT
    &&& range_in_areas(ms, addr, len)
}

/// The kernel may store `len` bytes at user address `addr` of `ms`: each
/// lies in a page of one of its areas that is mapped valid, writable and
/// user-accessible.
pub open spec fn user_store_ok(ms: MemorySet, mem: PhysMem, addr: int, len: int) -> bool {
    &&& user_load_ok(ms, addr, len)
    &&& addr + len <= usize::MAX
    &&& user_dest_ok(ms, mem, addr, len)
}

/// `m1` differs from `m0` at most in the bytes of the areas of `ms`: the
/// mappings, the frames in use and every other frame stay.
pub open spec fn only_user_bytes_changed(ms: MemorySet, m0: PhysMem, m1: PhysMem) -> bool {
    &&& ms.wf(&m1)
    &&& ms.mapped(&m1) == ms.mapped(&m0)
    &&& m1.frame_count() == m0.frame_count()
    &&& m1.free_count() == m0.free_count()
    &&& forall|q: int| #[trigger] m1.is_allocated(q) == m0.is_allocated(q)
    &&& forall|q: int|
        0 <= q < m0.frame_count() && !frame_in_areas(ms.areas(), 0, q) ==> #[trigger] same_frame(
            m0.ptes(),
            m1.ptes(),
            q,
        )
}

/// `m1` holds `bytes` at user address `addr` of `ms`, and every other byte
/// of its areas as `m0` does.
pub open spec fn stored(ms: MemorySet, m0: PhysMem, m1: PhysMem, addr: int, bytes: Seq<u8>) -> bool {
    &&& user_bytes(ms, m1, addr, bytes.len() as int) == bytes
    &&& forall|a: int|
        0 <= a && in_areas(ms.areas(), 0, a / 4096) && !(addr <= a < addr + bytes.len()) ==> #[trigger] user_byte(
            ms,
            m1,
            a,
        ) == user_byte(ms, m0, a)
    &&& only_user_bytes_changed(ms, m0, m1)
}

/// Whether the kernel may load `len` bytes from user address `addr`.
pub fn check_user_load(ms: &MemorySet, addr: u64, len: u64) -> (r: bool)
    ensures
        r == user_load_ok(*ms, addr as int, len as int),
{
    if addr > VA_LIMIT || len > VA_LIMIT - addr {
        return false;
    }
    ms.covers(addr, len)
}

/// The `len` bytes at user address `addr` of `ms`; `None` when one of them
/// does not lie in a page of an area.
pub fn load_user(ms: &MemorySet, mem: &PhysMem, addr: u64, len: u64) -> (r: Option<Vec<u8>>)
    requires
        ms.wf(mem),
    ensures
        r is Some <==> user_load_ok(*ms, addr as int, len as int),
        r matches Some(v) ==> v@ == user_bytes(*ms, *mem, addr as int, len as int),
{
    if !check_user_load(ms, addr, len) {
        return None;
    }
    let v = ms.read_user_bytes(mem, addr, len);
    assert(v@ =~= user_bytes(*ms, *mem, addr as int, len as int));
    Some(v)
}

/// Whether the kernel may store `len` bytes at user address `addr` of `ms`.
pub fn check_user_store(ms: &MemorySet, mem: &PhysMem, addr: usize, len: usize) -> (r: bool)
    requires
        ms.wf(mem),
    ensures
        r == user_store_ok(*ms, *mem, addr as int, len as int),
{
    check_user_load(ms, addr as u64, len as u64) && check_user_dest(ms, mem, addr, len)
}

/// Storing is allowed in every part of a range where it is allowed.
pub proof fn lemma_store_ok_sub(ms: MemorySet, mem: PhysMem, addr: int, len: int, lo: int, n: int)
    requires
        user_store_ok(ms, mem, addr, len),
        0 <= lo,
        0 <= n,
        lo + n <= len,
    ensures
        user_store_ok(ms, mem, addr + lo, n),
{
    assert forall|a: int| addr + lo <= a < addr + lo + n implies #[trigger] in_areas(ms.areas(), 0, a / 4096) by {
        assert(in_areas(ms.areas(), 0, a / 4096));
    }
    assert forall|a: int| addr + lo <= a < addr + lo + n implies #[trigger] crate::syscall::process::user_writable_at(
        ms,
        mem,
        a,
    ) by {
        assert(crate::syscall::process::user_writable_at(ms, mem, a));
    }
}

/// Store `bytes` at user address `addr` of `ms`: all of them, or, returning
/// `false`, none when one of them may not be stored there.
pub fn store_user(ms: &MemorySet, mem: &mut PhysMem, addr: usize, bytes: &Vec<u8>) -> (r: bool)
    requires
        ms.wf(old(mem)),
    ensures
        r == user_store_ok(*ms, *old(mem), addr as int, bytes@.len() as int),
        !r ==> *final(mem) == *old(mem),
        r ==> stored(*ms, *old(mem), *final(mem), addr as int, bytes@),
        ms.wf(final(mem)),
{
    let len = bytes.len();
    if !check_user_load(ms, addr as u64, len as u64) {
        return false;
    }
    if !check_user_dest(ms, mem, addr, len) {
        return false;
    }
    ms.write_user_bytes(mem, addr as u64, bytes);
    assert(user_bytes(*ms, *mem, addr as int, len as int) =~= bytes@);
    true
}

/// `s` is the NUL-terminated string at user address `addr` of `ms`: its
/// bytes, none of them 0, then a 0 byte, each in a page of an area.
pub open spec fn user_string(ms: MemorySet, mem: PhysMem, addr: int, s: Seq<u8>) -> bool {
    &&& user_load_ok(ms, addr, s.len() + 1int)
    &&& user_bytes(ms, mem, addr, s.len() as int) == s
    &&& forall|k: int| 0 <= k < s.len() ==> s[k] != 0
    &&& user_byte(ms, mem, addr + s.len()) == 0
}

/// A user address holds at most one NUL-terminated string.
pub proof fn lemma_user_string_unique(ms: MemorySet, mem: PhysMem, addr: int, s1: Seq<u8>, s2: Seq<u8>)
    requires
        user_string(ms, mem, addr, s1),
        user_string(ms, mem, addr, s2),
    ensures
        s1 == s2,
{
    if s1.len() < s2.len() {
        assert(s2[s1.len() as int] == user_bytes(ms, mem, addr, s2.len() as int)[s1.len() as int]);
    } else if s2.len() < s1.len() {
        assert(s1[s2.len() as int] == user_bytes(ms, mem, addr, s1.len() as int)[s2.len() as int]);
    }
}

/// The NUL-terminated string at user address `addr` of `ms`, without its
/// 0 byte; `None` when a byte up to its end does not lie in a page of an
/// area.
pub fn load_user_str(ms: &MemorySet, mem: &PhysMem, addr: u64) -> (r: Option<Vec<u8>>)
    requires
        ms.wf(mem),
    ensures
        r matches Some(s) ==> user_string(*ms, *mem, addr as int, s@),
        r is None ==> forall|s: Seq<u8>| !#[trigger] user_string(*ms, *mem, addr as int, s),
{
    let mut out: Vec<u8> = Vec::new();
    let mut k: u64 = 0;
    if addr >= VA_LIMIT {
        return None;
    }
    loop
        invariant
            ms.wf(mem),
            addr + k < VA_LIMIT,
            out@.len() == k,
            user_load_ok(*ms, addr as int, k as int),
            out@ == user_bytes(*ms, *mem, addr as int, k as int),
            forall|j: int| 0 <= j < k ==> out@[j] != 0,
        decreases VA_LIMIT - addr - k,
    {
        let a = addr + k;
        if !ms.covers(a, 1) {
            proof {
                assert forall|s: Seq<u8>| !#[trigger] user_string(*ms, *mem, addr as int, s) by {
                    if user_string(*ms, *mem, addr as int, s) {
                        if s.len() < k {
                            assert(out@[s.len() as int] == user_byte(*ms, *mem, addr + s.len()));
                        } else {
                            assert(in_areas(ms.areas(), 0, a as int / 4096));
                        }
                    }
                }
            }
            return None;
        }
        let bytes = ms.read_user_bytes(mem, a, 1);
        let b = bytes[0];
        assert(b == user_byte(*ms, *mem, addr + k));
        if b == 0 {
            proof {
                assert(user_bytes(*ms, *mem, addr as int, k as int) =~= out@);
            }
            return Some(out);
        }
        if a + 1 >= VA_LIMIT {
            proof {
                assert forall|s: Seq<u8>| !#[trigger] user_string(*ms, *mem, addr as int, s) by {
                    if user_string(*ms, *mem, addr as int, s) {
                        if s.len() <= k {
                            if s.len() < k {
                                assert(out@[s.len() as int] == user_byte(*ms, *mem, addr + s.len()));
                            }
                        }
                    }
                }
            }
            return None;
        }
        out.push(b);
        k = k + 1;
        proof {
            assert(out@ =~= user_bytes(*ms, *mem, addr as int, k as int));
        }
    }
}

/// The pointer that the 8 bytes at user address `addr` of `ms` hold.
pub open spec fn user_ptr(ms: MemorySet, mem: PhysMem, addr: int) -> int {
    crate::elf::le_bytes(user_bytes(ms, mem, addr, 8), 0, 8)
}

/// The user address `args` of `ms` holds an argument vector of `n`
/// arguments: `n` non-zero 8-byte pointers, each to a NUL-terminated
/// string, then a zero pointer.
pub open spec fn user_argv(ms: MemorySet, mem: PhysMem, args: int, n: nat) -> bool {
    &&& forall|i: int| 0 <= i <= n ==> #[trigger] user_load_ok(ms, args + 8 * i, 8)
    &&& forall|i: int|
        0 <= i < n ==> #[trigger] user_ptr(ms, mem, args + 8 * i) != 0 && exists|s: Seq<u8>|
            #[trigger] user_string(ms, mem, user_ptr(ms, mem, args + 8 * i), s)
    &&& user_ptr(ms, mem, args + 8 * n) == 0
}

/// An argument vector has one length.
pub proof fn lemma_user_argv_unique(ms: MemorySet, mem: PhysMem, args: int, n1: nat, n2: nat)
    requires
        user_argv(ms, mem, args, n1),
        user_argv(ms, mem, args, n2),
    ensures
        n1 == n2,
{
    if n1 < n2 {
        assert(user_ptr(ms, mem, args + 8 * n1) != 0);
    } else if n2 < n1 {
        assert(user_ptr(ms, mem, args + 8 * n2) != 0);
    }
}

/// The number of arguments of the argument vector at user address `args`
/// of `ms`; `None` when a pointer up to the zero one, or a byte of a string
/// up to its end, does not lie in a page of an area.
pub fn count_user_args(ms: &MemorySet, mem: &PhysMem, args: u64) -> (r: Option<u64>)
    requires
        ms.wf(mem),
    ensures
        r matches Some(n) ==> user_argv(*ms, *mem, args as int, n as nat),
        r is None ==> forall|n: nat| !#[trigger] user_argv(*ms, *mem, args as int, n),
{
    if args > VA_LIMIT {
        proof {
            assert forall|n: nat| !#[trigger] user_argv(*ms, *mem, args as int, n) by {
                if user_argv(*ms, *mem, args as int, n) {
                    assert(user_load_ok(*ms, args + 8 * 0, 8));
                }
            }
        }
        return None;
    }
    let mut i: u64 = 0;
    loop
        invariant
            ms.wf(mem),
            forall|j: int| 0 <= j < i ==> #[trigger] user_load_ok(*ms, args + 8 * j, 8),
            forall|j: int|
                0 <= j < i ==> #[trigger] user_ptr(*ms, *mem, args + 8 * j) != 0 && exists|s: Seq<u8>|
                    #[trigger] user_string(*ms, *mem, user_ptr(*ms, *mem, args + 8 * j), s),
            args + 8 * i <= VA_LIMIT,
        decreases VA_LIMIT - args - 8 * i,
    {
        let at = args + 8 * i;
        let raw = match load_user(ms, mem, at, 8) {
            Some(v) => v,
            None => {
                proof {
                    assert forall|n: nat| !#[trigger] user_argv(*ms, *mem, args as int, n) by {
                        if user_argv(*ms, *mem, args as int, n) {
                            if n < i {
                                assert(user_ptr(*ms, *mem, args + 8 * n) != 0);
                            } else {
                                assert(user_load_ok(*ms, args + 8 * i, 8));
                            }
                        }
                    }
                }
                return None;
            },
        };
        let ptr = crate::elf::read_le(&raw, 0, 8);
        assert(ptr == user_ptr(*ms, *mem, at as int));
        if ptr == 0 {
            proof {
                assert forall|j: int| 0 <= j <= i implies #[trigger] user_load_ok(*ms, args + 8 * j, 8) by {
                    if j == i {
                        assert(args + 8 * j == at);
                    }
                }
            }
            return Some(i);
        }
        let s = match load_user_str(ms, mem, ptr) {
            Some(s) => s,
            None => {
                proof {
                    assert forall|n: nat| !#[trigger] user_argv(*ms, *mem, args as int, n) by {
                        if user_argv(*ms, *mem, args as int, n) {
                            if n < i {
                                assert(user_ptr(*ms, *mem, args + 8 * n) != 0);
                            } else if n == i {
                                assert(user_ptr(*ms, *mem, args + 8 * i) == 0);
                            } else {
                                assert(0 <= i < n);
                                assert(user_ptr(*ms, *mem, args + 8 * i) != 0);
                            }
                        }
                    }
                }
                return None;
            },
        };
        proof {
            assert(user_string(*ms, *mem, user_ptr(*ms, *mem, args + 8 * i), s@));
        }
        if at + 8 > VA_LIMIT - 8 {
            proof {
                assert forall|n: nat| !#[trigger] user_argv(*ms, *mem, args as int, n) by {
                    if user_argv(*ms, *mem, args as int, n) {
                        if n <= i {
                            assert(user_ptr(*ms, *mem, args + 8 * n) == 0);
                            if n < i {
                                assert(user_ptr(*ms, *mem, args + 8 * n) != 0);
                            }
                        } else {
                            assert(user_load_ok(*ms, args + 8 * (i + 1), 8));
                        }
                    }
                }
            }
            return None;
        }
        i = i + 1;
    }
}

} // verus!

