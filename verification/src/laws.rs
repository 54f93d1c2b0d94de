//! Properties that relate several operations of the kernel, stated over the
//! models that the operations' contracts use.
use vstd::prelude::*;
use crate::deadlock::col_sum;
use crate::fs::{access_of, first_match, has_name, live_names, slot_added, FileSystem};
use crate::memory_set::{area_appended, MemorySet};
use crate::page_table::{PageTable, PageTableEntry, PhysMem};
use crate::pipe::{read_step, write_step, PipeProgress, PipeRingBuffer, RING_BUFFER_SIZE};
use crate::process::TaskControlBlock;
use crate::task::ReadyTask;
use crate::syscall::user::{load_user, store_user, user_store_ok};

verus! {

/// What is written into an empty pipe is read back in order: a write of at
/// most `RING_BUFFER_SIZE` bytes into an empty ring buffer completes in one
/// step, and a read of as many bytes then completes with exactly those
/// bytes and leaves the buffer empty.
pub proof fn law_pipe_round_trip(buf: Seq<u8>, out: Seq<u8>, write_ends_closed: bool)
    requires
        buf.len() <= RING_BUFFER_SIZE,
        out.len() == buf.len(),
    ensures
        ({
            let (held, w) = write_step(Seq::empty(), buf, 0);
            let (got, left, r) = read_step(held, out, 0, write_ends_closed);
            &&& w == PipeProgress::Done(buf.len() as usize)
            &&& got == buf
            &&& left == Seq::<u8>::empty()
            &&& r == PipeProgress::Done(buf.len() as usize)
        }),
{
    let (held, w) = write_step(Seq::empty(), buf, 0);
    assert(held =~= buf);
    let (got, left, r) = read_step(held, out, 0, write_ends_closed);
    assert(got =~= buf);
    assert(left =~= Seq::<u8>::empty());
}

/// Bytes leave a pipe in the order they entered: a write step appends the
/// first bytes of the request behind what the ring buffer held, and a read
/// step then takes the oldest bytes, as many as fit, leaving the rest in
/// order.
pub proof fn law_pipe_fifo(contents: Seq<u8>, buf: Seq<u8>, out: Seq<u8>, write_ends_closed: bool)
    requires
        contents.len() <= RING_BUFFER_SIZE,
    ensures
        ({
            let (held, w) = write_step(contents, buf, 0);
            let (got, left, r) = read_step(held, out, 0, write_ends_closed);
            let k = crate::pipe::step_count(held.len() as int, out.len() as int);
            &&& held == contents + buf.take(held.len() - contents.len())
            &&& got.take(k) == held.take(k)
            &&& left == held.skip(k)
        }),
{
    let (held, w) = write_step(contents, buf, 0);
    assert(held =~= contents + buf.take(held.len() - contents.len()));
    let (got, left, r) = read_step(held, out, 0, write_ends_closed);
    let k = crate::pipe::step_count(held.len() as int, out.len() as int);
    assert(got.take(k) =~= held.take(k));
}

/// Unmapping a page that was just mapped gives back the mappings from
/// before the map.
pub proof fn law_map_then_unmap(
    pt0: PageTable,
    mem0: PhysMem,
    pt1: PageTable,
    mem1: PhysMem,
    pt2: PageTable,
    mem2: PhysMem,
    vpn: int,
    entry: PageTableEntry,
)
    requires
        !pt0.mapped(&mem0).contains_key(vpn),
        pt1.mapped(&mem1) == pt0.mapped(&mem0).insert(vpn, entry),
        pt2.mapped(&mem2) == pt1.mapped(&mem1).remove(vpn),
    ensures
        pt2.mapped(&mem2) == pt0.mapped(&mem0),
{
    assert(pt2.mapped(&mem2) =~= pt0.mapped(&mem0));
}

/// Removing the area just inserted over free pages `[s, e)` gives back the
/// areas and the mappings from before the insertion.
pub proof fn law_insert_then_remove_area(
    ms0: MemorySet,
    mem0: PhysMem,
    ms1: MemorySet,
    mem1: PhysMem,
    ms2: MemorySet,
    mem2: PhysMem,
    s: int,
    e: int,
    perm: u8,
)
    requires
        s < e,
        forall|p: int| s <= p < e ==> !#[trigger] ms0.mapped(&mem0).contains_key(p),
        ms1.wf(&mem1),
        area_appended(ms0, mem0, ms1, mem1, s, e, perm),
        exists|i: int|
            {
                &&& 0 <= i < ms1.areas().len()
                &&& ms1.areas()[i].start() == s
                &&& ms1.areas()[i].end() == e
                &&& forall|a: int|
                    0 <= a < i ==> !((#[trigger] ms1.areas()[a]).start() == s && ms1.areas()[a].end()
                        == e)
                &&& ms2.areas() == ms1.areas().remove(i)
            },
        forall|p: int|
            #[trigger] ms2.mapped(&mem2).contains_key(p) == (ms1.mapped(&mem1).contains_key(p) && !(s
                <= p < e)),
        forall|p: int|
            #[trigger] ms2.mapped(&mem2).contains_key(p) ==> ms2.mapped(&mem2)[p] == ms1.mapped(
                &mem1,
            )[p],
    ensures
        ms2.areas() == ms0.areas(),
        ms2.mapped(&mem2) == ms0.mapped(&mem0),
{
    let n = ms0.areas().len() as int;
    let i = choose|i: int|
        {
            &&& 0 <= i < ms1.areas().len()
            &&& ms1.areas()[i].start() == s
            &&& ms1.areas()[i].end() == e
            &&& forall|a: int|
                0 <= a < i ==> !((#[trigger] ms1.areas()[a]).start() == s && ms1.areas()[a].end() == e)
            &&& ms2.areas() == ms1.areas().remove(i)
        };
    if i != n {
        ms1.lemma_disjoint(&mem1, i, n);
    }
    assert(ms1.areas().remove(n) =~= ms1.areas().take(n));
    assert forall|p: int| #[trigger] ms2.mapped(&mem2).contains_key(p) implies ms2.mapped(&mem2)[p]
        == ms0.mapped(&mem0)[p] by {
        assert(!(s <= p < e));
    }
    assert(ms2.mapped(&mem2) =~= ms0.mapped(&mem0));
}

/// Moving the program break up by `size` bytes and back down by as many
/// gives back the break and the mapped pages from before.
pub proof fn law_brk_grow_then_shrink(
    t0: TaskControlBlock,
    mem0: PhysMem,
    t1: TaskControlBlock,
    mem1: PhysMem,
    t2: TaskControlBlock,
    mem2: PhysMem,
    size: i32,
)
    requires
        size > 0,
        t1.inner.heap_bottom == t0.inner.heap_bottom,
        t2.inner.heap_bottom == t1.inner.heap_bottom,
        forall|p: int|
            crate::process::heap_end(t0.inner.program_brk as int) <= p < crate::process::heap_end(
                t0.inner.program_brk + size,
            ) ==> !#[trigger] t0.inner.memory_set.mapped(&mem0).contains_key(p),
        t1.inner.program_brk == t0.inner.program_brk + size,
        forall|p: int|
            #[trigger] t1.inner.memory_set.mapped(&mem1).contains_key(p) == ((t0.inner.memory_set.mapped(
                &mem0,
            ).contains_key(p) && !(crate::process::heap_end(t0.inner.program_brk + size) <= p
                < crate::process::heap_end(t0.inner.program_brk as int))) || (crate::process::heap_end(
                t0.inner.program_brk as int,
            ) <= p < crate::process::heap_end(t0.inner.program_brk + size))),
        forall|p: int|
            #[trigger] t1.inner.memory_set.mapped(&mem1).contains_key(p) && t0.inner.memory_set.mapped(
                &mem0,
            ).contains_key(p) ==> t1.inner.memory_set.mapped(&mem1)[p] == t0.inner.memory_set.mapped(
                &mem0,
            )[p],
        t2.inner.program_brk == t1.inner.program_brk - size,
        forall|p: int|
            #[trigger] t2.inner.memory_set.mapped(&mem2).contains_key(p) == ((t1.inner.memory_set.mapped(
                &mem1,
            ).contains_key(p) && !(crate::process::heap_end(t1.inner.program_brk - size) <= p
                < crate::process::heap_end(t1.inner.program_brk as int))) || (crate::process::heap_end(
                t1.inner.program_brk as int,
            ) <= p < crate::process::heap_end(t1.inner.program_brk - size))),
        forall|p: int|
            #[trigger] t2.inner.memory_set.mapped(&mem2).contains_key(p) && t1.inner.memory_set.mapped(
                &mem1,
            ).contains_key(p) ==> t2.inner.memory_set.mapped(&mem2)[p] == t1.inner.memory_set.mapped(
                &mem1,
            )[p],
    ensures
        t2.inner.program_brk == t0.inner.program_brk,
        t2.inner.memory_set.mapped(&mem2) == t0.inner.memory_set.mapped(&mem0),
{
    let b0 = t0.inner.program_brk as int;
    crate::memory_set::lemma_page_bounds(
        crate::address::VirtAddr(b0 as u64),
        crate::address::VirtAddr((b0 + size) as u64),
    );
    assert forall|p: int| #[trigger] t2.inner.memory_set.mapped(&mem2).contains_key(p)
        == t0.inner.memory_set.mapped(&mem0).contains_key(p) by {
        assert(t1.inner.memory_set.mapped(&mem1).contains_key(p) == (t0.inner.memory_set.mapped(
            &mem0,
        ).contains_key(p) || (crate::process::heap_end(b0) <= p < crate::process::heap_end(b0 + size))));
    }
    assert forall|p: int| #[trigger] t2.inner.memory_set.mapped(&mem2).contains_key(p) implies t2.inner.memory_set.mapped(
        &mem2,
    )[p] == t0.inner.memory_set.mapped(&mem0)[p] by {
        assert(t1.inner.memory_set.mapped(&mem1).contains_key(p));
    }
    assert(t2.inner.memory_set.mapped(&mem2) =~= t0.inner.memory_set.mapped(&mem0));
}

/// The live names before a slot `k` keep their place when slot `k` changes
/// between empty slots.
proof fn lemma_live_names_empty_slot(slots: Seq<(Seq<u8>, u32)>, v: (Seq<u8>, u32))
    requires
        v.1 == 0,
    ensures
        live_names(slots.push(v)) == live_names(slots),
{
    assert(slots.push(v).drop_last() =~= slots);
}

/// Removing the name that a link just added gives back the directory's
/// names and every file's link count.
pub proof fn law_link_then_unlink(
    fs0: FileSystem,
    fs1: FileSystem,
    fs2: FileSystem,
    old_name: Seq<u8>,
    new_name: Seq<u8>,
)
    requires
        fs0.wf(),
        !has_name(fs0.slots(), new_name),
        exists|i: int|
            {
                let id = fs0.slots()[i].1;
                &&& #[trigger] first_match(fs0.slots(), i, old_name)
                &&& slot_added(fs0.slots(), fs1.slots(), new_name, id)
                &&& fs1.nlink(id as int) == fs0.nlink(id as int) + 1
                &&& crate::fs::other_inodes_same(fs0, fs1, id as int)
                &&& fs1.allocated(id as int)
            },
        exists|j: int|
            {
                let id = fs1.slots()[j].1 as int;
                &&& #[trigger] first_match(fs1.slots(), j, new_name)
                &&& fs2.slots() == fs1.slots().update(j, (Seq::<u8>::empty(), 0u32))
                &&& fs1.nlink(id) > 1 ==> fs2.allocated(id) && fs2.nlink(id) == fs1.nlink(id) - 1
                &&& crate::fs::other_inodes_same(fs1, fs2, id)
            },
    ensures
        live_names(fs2.slots()) == live_names(fs0.slots()),
        forall|id: int| #[trigger] fs2.allocated(id) == fs0.allocated(id),
        forall|id: int| fs0.allocated(id) ==> #[trigger] fs2.nlink(id) == fs0.nlink(id),
{
    let s0 = fs0.slots();
    let s1 = fs1.slots();
    let i = choose|i: int|
        {
            let id = fs0.slots()[i].1;
            &&& #[trigger] first_match(fs0.slots(), i, old_name)
            &&& slot_added(fs0.slots(), fs1.slots(), new_name, id)
            &&& fs1.nlink(id as int) == fs0.nlink(id as int) + 1
            &&& crate::fs::other_inodes_same(fs0, fs1, id as int)
            &&& fs1.allocated(id as int)
        };
    let id = s0[i].1;
    let k = choose|k: int| #[trigger] crate::fs::first_free_slot(s0, k) && s1 == if k < s0.len() {
        s0.update(k, (new_name, id))
    } else {
        s0.push((new_name, id))
    };
    let j = choose|j: int|
        {
            let id = fs1.slots()[j].1 as int;
            &&& #[trigger] first_match(fs1.slots(), j, new_name)
            &&& fs2.slots() == fs1.slots().update(j, (Seq::<u8>::empty(), 0u32))
            &&& fs1.nlink(id) > 1 ==> fs2.allocated(id) && fs2.nlink(id) == fs1.nlink(id) - 1
            &&& crate::fs::other_inodes_same(fs1, fs2, id)
        };
    assert(s0[i].1 != 0);
    if j != k {
        if j < s0.len() {
            assert(s1[j] == s0[j]);
            assert(has_name(s0, new_name));
        }
    }
    assert(j == k);
    crate::fs::law_nlink_counts_names(fs0);
    assert(fs0.allocated(id as int));
    assert(fs0.nlink(id as int) >= 1);
    assert(fs1.slots()[j].1 == id);
    if k < s0.len() {
        assert(s0[k].0.len() == 0);
        assert(s0[k].0 =~= Seq::<u8>::empty());
        assert(s0[k] == (Seq::<u8>::empty(), 0u32));
        assert(fs2.slots() =~= s0);
    } else {
        assert(fs2.slots() =~= s0.push((Seq::<u8>::empty(), 0u32)));
        lemma_live_names_empty_slot(s0, (Seq::<u8>::empty(), 0u32));
    }
    assert forall|x: int| #[trigger] fs2.allocated(x) == fs0.allocated(x) by {
        if x != id {
            assert(fs1.allocated(x) == fs0.allocated(x));
        }
    }
    assert forall|x: int| fs0.allocated(x) implies #[trigger] fs2.nlink(x) == fs0.nlink(x) by {
        if x != id {
            assert(fs1.allocated(x) == fs0.allocated(x));
            assert(fs1.nlink(x) == fs0.nlink(x));
            assert(fs2.allocated(x) == fs1.allocated(x));
            assert(fs2.nlink(x) == fs1.nlink(x));
        } else {
            assert(fs1.nlink(x) > 1);
            assert(fs2.nlink(x) == fs1.nlink(x) - 1);
        }
    }
}

/// Process identifiers of `children` are pairwise distinct.
pub open spec fn distinct_pids(children: Seq<TaskControlBlock>) -> bool {
    forall|a: int, b: int|
        0 <= a < children.len() && 0 <= b < children.len() && a != b ==> #[trigger] children[a].pid
            != #[trigger] children[b].pid
}

/// A child is reaped only once: after `waitpid` reaps child `i`, no child
/// left has its PID.
pub proof fn law_reaped_once(before: Seq<TaskControlBlock>, after: Seq<TaskControlBlock>, i: int)
    requires
        distinct_pids(before),
        0 <= i < before.len(),
        after == before.remove(i),
    ensures
        forall|k: int| 0 <= k < after.len() ==> (#[trigger] after[k]).pid != before[i].pid,
        distinct_pids(after),
{
    assert forall|k: int| 0 <= k < after.len() implies (#[trigger] after[k]).pid != before[i].pid by {
        if k < i {
            assert(after[k] == before[k]);
        } else {
            assert(after[k] == before[k + 1]);
        }
    }
    assert forall|a: int, b: int|
        0 <= a < after.len() && 0 <= b < after.len() && a != b implies #[trigger] after[a].pid
            != #[trigger] after[b].pid by {
        let oa = if a < i { a } else { a + 1 };
        let ob = if b < i { b } else { b + 1 };
        assert(after[a] == before[oa]);
        assert(after[b] == before[ob]);
    }
}

/// Acquiring a unit of resource `id` moves it from the available count to
/// the holder's: for every resource, available plus held units stay the
/// same.
pub proof fn law_acquire_conserves_units(
    avail0: Seq<usize>,
    hold0: Seq<Seq<usize>>,
    avail1: Seq<usize>,
    hold1: Seq<Seq<usize>>,
    id: int,
)
    requires
        0 <= id < avail0.len(),
        avail0[id] > 0,
        avail1 == avail0.update(id, (avail0[id] - 1) as usize),
        forall|j: int|
            0 <= j < avail0.len() ==> #[trigger] col_sum(hold1, j) == col_sum(hold0, j) + if j == id {
                1int
            } else {
                0int
            },
    ensures
        forall|j: int|
            0 <= j < avail0.len() ==> avail1[j] + #[trigger] col_sum(hold1, j) == avail0[j] + col_sum(
                hold0,
                j,
            ),
{
}

/// Releasing a held unit of resource `id` moves it back to the available
/// count: for every resource, available plus held units stay the same.
pub proof fn law_release_conserves_units(
    avail0: Seq<usize>,
    hold0: Seq<Seq<usize>>,
    avail1: Seq<usize>,
    hold1: Seq<Seq<usize>>,
    id: int,
)
    requires
        0 <= id < avail0.len(),
        avail0[id] < usize::MAX,
        avail1 == avail0.update(id, (avail0[id] + 1) as usize),
        forall|j: int|
            0 <= j < avail0.len() ==> #[trigger] col_sum(hold1, j) == col_sum(hold0, j) - if j == id {
                1int
            } else {
                0int
            },
    ensures
        forall|j: int|
            0 <= j < avail0.len() ==> avail1[j] + #[trigger] col_sum(hold1, j) == avail0[j] + col_sum(
                hold0,
                j,
            ),
{
}

/// A process's stride grows by its pass at each dispatch: when the
/// scheduler picks the record that suspending the process queued, and the
/// process is dispatched with the pick, its stride is its old stride plus
/// `BIG_STRIDE / prio`, which is more than before for a priority of at most
/// `BIG_STRIDE`.
pub proof fn law_stride_accumulates(
    t0: TaskControlBlock,
    queued: ReadyTask,
    picked: ReadyTask,
    t1: TaskControlBlock,
)
    requires
        queued == (ReadyTask { pid: t0.pid, stride: t0.inner.stride, prio: t0.inner.prio }),
        2 <= t0.inner.prio <= crate::config::BIG_STRIDE,
        queued.stride + crate::task::pass(queued.prio) <= usize::MAX,
        picked == (ReadyTask {
            stride: (queued.stride + crate::task::pass(queued.prio)) as usize,
            ..queued
        }),
        t1.inner == (crate::process::TaskControlBlockInner {
            stride: picked.stride,
            task_status: crate::task::TaskStatus::Running,
            ..t0.inner
        }),
    ensures
        t1.inner.stride == t0.inner.stride + crate::config::BIG_STRIDE / t0.inner.prio,
        t1.inner.stride > t0.inner.stride,
        t1.inner.prio == t0.inner.prio,
{
    let p = t0.inner.prio as int;
    assert(65536int / p >= 1) by (nonlinear_arith)
        requires
            2 <= p <= 65536,
    ;
}

/// Bytes leave the ring buffer in the order they were written: starting
/// from unread bytes `q` of `buf`, `write_byte` of each byte of `xs` in
/// turn, then `read_byte` as many times as `available_read` counts, returns
/// `q` followed by `xs`, across the wrap of the indices, and leaves the
/// buffer empty with all its room free and its write end as it was.
pub fn law_ring_write_then_read(buf: &mut PipeRingBuffer, xs: &Vec<u8>) -> (out: Vec<u8>)
    requires
        old(buf).wf(),
        old(buf).contents().len() + xs@.len() <= RING_BUFFER_SIZE,
    ensures
        out@ == old(buf).contents() + xs@,
        final(buf).wf(),
        final(buf).contents().len() == 0,
        final(buf).write_end_registered() == old(buf).write_end_registered(),
{
    let ghost q = buf.contents();
    let mut i: usize = 0;
    while i < xs.len()
        invariant
            i <= xs@.len(),
            q.len() + xs@.len() <= RING_BUFFER_SIZE,
            buf.wf(),
            buf.contents() == q + xs@.take(i as int),
            buf.write_end_registered() == old(buf).write_end_registered(),
        decreases xs@.len() - i,
    {
        buf.write_byte(xs[i]);
        assert(q + xs@.take(i + 1) =~= (q + xs@.take(i as int)).push(xs@[i as int]));
        i = i + 1;
    }
    assert(xs@.take(xs@.len() as int) =~= xs@);
    let n = buf.available_read();
    let mut out: Vec<u8> = Vec::new();
    let mut k: usize = 0;
    while k < n
        invariant
            k <= n,
            n == (q + xs@).len(),
            buf.wf(),
            out@ + buf.contents() == q + xs@,
            out@.len() == k,
            buf.write_end_registered() == old(buf).write_end_registered(),
        decreases n - k,
    {
        let ghost c = buf.contents();
        let b = buf.read_byte();
        out.push(b);
        assert(out@ + buf.contents() =~= (out@.drop_last()) + c);
        k = k + 1;
    }
    assert(out@ =~= out@ + buf.contents());
    out
}

/// A load of user memory gives back what a store put there: `store_user`
/// of `bytes` at `addr` followed by `load_user` of as many bytes at `addr`
/// returns `bytes`, whenever the store may be done.
pub fn law_store_then_load(ms: &MemorySet, mem: &mut PhysMem, addr: usize, bytes: &Vec<u8>) -> (r: Option<Vec<u8>>)
    requires
        ms.wf(old(mem)),
    ensures
        r is Some <==> user_store_ok(*ms, *old(mem), addr as int, bytes@.len() as int),
        r matches Some(v) ==> v@ == bytes@,
{
    if !store_user(ms, mem, addr, bytes) {
        return None;
    }
    load_user(ms, mem, addr as u64, bytes.len() as u64)
}

/// A loaded ELF segment is mapped user-accessible with exactly the
/// permissions its flags ask for, each on its own: for every value `f` of a
/// program header's flags, the map permission that `from_elf` gives the
/// segment (and `loads` records) has the user bit, has the write bit
/// exactly when `f` has `PF_W`, the read bit exactly when `f` has `PF_R`,
/// the execute bit exactly when `f` has `PF_X`, and no other bit. So a
/// `PF_R | PF_W` data segment is readable and writable, and a `PF_R | PF_X`
/// text segment readable and executable but not writable.
pub proof fn law_segment_permissions(f: u64)
    ensures
        crate::elf::segment_perm(f as int) & 16u8 == 16u8,
        (crate::elf::segment_perm(f as int) & 4u8 != 0) == (f & 2u64 != 0),
        (crate::elf::segment_perm(f as int) & 2u8 != 0) == (f & 4u64 != 0),
        (crate::elf::segment_perm(f as int) & 8u8 != 0) == (f & 1u64 != 0),
        crate::elf::segment_perm(f as int) & 0xe1u8 == 0,
        f & 7u64 == 6u64 ==> crate::elf::segment_perm(f as int) == 0x16u8,
        f & 7u64 == 5u64 ==> crate::elf::segment_perm(f as int) == 0x1au8,
{
    let a: u8 = if f & 4u64 != 0 { 2u8 } else { 0u8 };
    let b: u8 = if f & 2u64 != 0 { 4u8 } else { 0u8 };
    let c: u8 = if f & 1u64 != 0 { 8u8 } else { 0u8 };
    let p = crate::elf::segment_perm(f as int);
    assert(p == (16u8 | a | b | c) as u8);
    assert((16u8 | a | b | c) as u8 & 16u8 == 16u8) by (bit_vector);
    assert((a == 0u8 || a == 2u8) && (b == 0u8 || b == 4u8) && (c == 0u8 || c == 8u8) ==> {
        &&& (((16u8 | a | b | c) as u8 & 4u8) != 0) == (b == 4u8)
        &&& (((16u8 | a | b | c) as u8 & 2u8) != 0) == (a == 2u8)
        &&& (((16u8 | a | b | c) as u8 & 8u8) != 0) == (c == 8u8)
        &&& (16u8 | a | b | c) as u8 & 0xe1u8 == 0u8
    }) by (bit_vector);
    assert(f & 7u64 == 6u64 ==> f & 4u64 != 0 && f & 2u64 != 0 && f & 1u64 == 0) by (bit_vector);
    assert(f & 7u64 == 5u64 ==> f & 4u64 != 0 && f & 2u64 == 0 && f & 1u64 != 0) by (bit_vector);
    assert((16u8 | 2u8 | 4u8 | 0u8) as u8 == 0x16u8) by (bit_vector);
    assert((16u8 | 2u8 | 0u8 | 8u8) as u8 == 0x1au8) by (bit_vector);
}

/// The access that open flags grant: with `WRONLY` the file is open for
/// writing only, whatever other bits (`CREATE`, `TRUNC`) come with it;
/// with no bit at all, for reading only; otherwise for both. In particular
/// a write-only open never grants reading, and every open grants reading
/// or writing.
pub proof fn law_open_access(bits: u32)
    ensures
        bits & 1u32 != 0 ==> access_of(bits) == (false, true),
        bits == 0 ==> access_of(bits) == (true, false),
        bits != 0 && bits & 1u32 == 0 ==> access_of(bits) == (true, true),
        access_of(bits).0 == (bits & 1u32 == 0),
        access_of(bits).1 == (bits != 0),
        access_of(bits | 0x600u32) == (if bits & 1u32 != 0 { (false, true) } else { (true, true) }),
{
    assert(bits & 1u32 != 0 <==> bits & 1u32 == 1u32) by (bit_vector);
    assert(bits & 1u32 != 0 ==> bits != 0) by (bit_vector);
    assert((bits | 0x600u32) & 1u32 == bits & 1u32) by (bit_vector);
    assert((bits | 0x600u32) != 0u32) by (bit_vector);
}

} // verus!
