//! Process management system calls, on the state of the calling process.
use vstd::prelude::*;
use crate::address::{sign_extend, PhysPageNum, VirtAddr, VA_LIMIT, VPN_LIMIT};
use crate::config::PAGE_SIZE;
use crate::memory_set::{
    area_pages, elf_loadable, in_areas, lemma_loaded_same_space, segments_loaded, TRAMPOLINE_VPN, frame_in_areas, lemma_fresh_not_own, area_appended, ceil_page, elf_space, floor_page, seg_max_end, space_copied, MapPermission, MemorySet,
    USER_STACK_PAGES,
};
use crate::elf::{e_entry, e_phnum, le_bytes, loads, valid_elf};
use crate::fs::{first_match, has_name, open_file, FileSystem, OpenFlags};
use crate::address::PAGE_BYTES;
use crate::page_table::{lookup, pte_flags, same_frame, PhysMem};
use crate::process::{
    heap_end, exit_current, reapable, child_matches, suspend_current, KernelInfo, TaskControlBlock,
    PidAllocator, TaskControlBlockInner, IDLE_PID,
};
use crate::signal::{SignalAction, SignalFlags, MAX_SIG};
use crate::task::{ReadyTask, TaskManager};
use crate::trap::TrapContext;
use crate::syscall::user::{
    count_user_args, lemma_user_argv_unique, lemma_user_string_unique, load_user_str, user_argv, user_string,
    check_user_load, le_encode, load_user, push_le, stored, store_user, user_bytes, user_load_ok, user_store_ok,
};

verus! {

/// The size of a `TimeVal` in user memory, in bytes.
pub const TIMEVAL_SIZE: usize = 16;

/// A time of day in seconds and microseconds.
#[derive(Copy, Clone, PartialEq, Eq, Structural)]
pub struct TimeVal {
    pub sec: usize,
    pub usec: usize,
}

/// Exit the calling process with `exit_code`; see `exit_current`.
pub fn sys_exit(task: &mut TaskControlBlock, initproc: &mut TaskControlBlock, mem: &mut PhysMem, exit_code: i32)
    requires
        old(task).pid != IDLE_PID,
        old(initproc).pid == IDLE_PID,
        old(task).inner.memory_set.wf(old(mem)),
    ensures
        final(task).pid == old(task).pid,
        final(task).inner.task_status == crate::task::TaskStatus::Zombie,
        final(task).inner.exit_code == exit_code,
        final(task).inner.children@.len() == 0,
        final(task).inner.memory_set.wf(final(mem)),
        final(task).inner.memory_set.areas().len() == 0,
        forall|q: int|
            #[trigger] final(mem).is_allocated(q) == (old(mem).is_allocated(q)
                && !crate::memory_set::frame_in_areas(old(task).inner.memory_set.areas(), 0, q)),
        final(initproc).inner.children@ == old(initproc).inner.children@ + Seq::new(
            old(task).inner.children@.len(),
            |k: int| crate::process::reparented(old(task).inner.children@[k], IDLE_PID),
        ),
{
    exit_current(task, initproc, mem, exit_code);
}

/// Give up the processor: the calling process joins the back of the ready
/// queue. Returns 0.
pub fn sys_yield(task: &mut TaskControlBlock, manager: &mut TaskManager) -> (r: isize)
    ensures
        r == 0,
        final(task).inner.task_status == crate::task::TaskStatus::Ready,
        final(manager).queue() == old(manager).queue().push(
            ReadyTask { pid: old(task).pid, stride: old(task).inner.stride, prio: old(task).inner.prio },
        ),
{
    suspend_current(task, manager);
    0
}

/// The PID of the calling process.
pub fn sys_getpid(task: &TaskControlBlock) -> (r: isize)
    ensures
        r == #[verifier::truncate] (task.pid as isize),
{
    #[verifier::truncate] (task.getpid() as isize)
}

/// Fork the calling process into a child with a fresh PID from `pids` and
/// a page-by-page copy of its address space (see `TaskControlBlock::fork`);
/// the child sees 0 as the call's result and joins the ready queue. Returns
/// the child's PID; -1, with the process, the queue and the identifiers
/// unchanged, when frames run out.
#[verifier::spinoff_prover]
pub fn sys_fork(
    task: &mut TaskControlBlock,
    manager: &mut TaskManager,
    pids: &mut PidAllocator,
    mem: &mut PhysMem,
    trampoline: PhysPageNum,
    kernel_stack_top: usize,
    kernel: KernelInfo,
) -> (r: isize)
    requires
        old(pids).wf(),
        old(pids).next_unused() < usize::MAX,
        old(task).inner.memory_set.wf(old(mem)),
        trampoline.0 < crate::address::PPN_LIMIT,
    ensures
        final(pids).wf(),
        final(mem).wf(),
        final(task).pid == old(task).pid,
        final(task).inner.memory_set.wf(final(mem)),
        final(task).inner.memory_set.mapped(final(mem)) == old(task).inner.memory_set.mapped(old(mem)),
        forall|q: int|
            0 <= q < old(mem).frame_count() && old(mem).is_allocated(q) ==> #[trigger] same_frame(
                old(mem).ptes(),
                final(mem).ptes(),
                q,
            ),
        old(mem).free_count() >= 3 + 3 * area_pages(old(task).inner.memory_set.areas()) && !in_areas(
            old(task).inner.memory_set.areas(),
            0,
            TRAMPOLINE_VPN as int,
        ) ==> final(task).inner.children@.len() == old(task).inner.children@.len() + 1,
        final(task).inner.children@.len() == old(task).inner.children@.len() ==> r == -1
            && *final(task) == *old(task) && *final(pids) == *old(pids) && final(manager).queue()
            == old(manager).queue(),
        final(task).inner.children@.len() != old(task).inner.children@.len() ==> forked(
            *old(task),
            *final(task),
            *old(pids),
            *final(pids),
            old(manager).queue(),
            final(manager).queue(),
            *old(mem),
            *final(mem),
            trampoline.0,
            kernel_stack_top,
            kernel,
            r,
        ),
{
    let new_pid = match task.fork(pids, mem, trampoline, kernel_stack_top, kernel) {
        Some(p) => p,
        None => {
            return -1;
        },
    };
    let ghost kids = task.inner.children@;
    let mut child = match task.inner.children.pop() {
        Some(c) => c,
        None => {
            return #[verifier::truncate] (new_pid as isize);
        },
    };
    child.inner.trap_cx.x[10] = 0;
    let stride = child.inner.stride;
    let prio = child.inner.prio;
    task.inner.children.push(child);
    proof {
        assert(task.inner.children@.take(old(task).inner.children@.len() as int)
            =~= kids.take(old(task).inner.children@.len() as int));
    }
    manager.add(ReadyTask { pid: new_pid, stride, prio });
    #[verifier::truncate] (new_pid as isize)
}

/// `t1`, `pids1`, `queue1` and `m1` are what a successful fork of `t0`
/// leaves, with result `r`: a child with a PID that was not in use, last
/// among the children, whose address space copies `t0`'s page by page,
/// that resumes from `t0`'s trap context with 0 in a0 on its own kernel
/// stack, inherits the heap, open files, signal mask and actions, starts
/// ready with stride 0 and the default priority, and is queued; `t0`
/// otherwise unchanged.
pub open spec fn forked(
    t0: TaskControlBlock,
    t1: TaskControlBlock,
    pids0: PidAllocator,
    pids1: PidAllocator,
    queue0: Seq<ReadyTask>,
    queue1: Seq<ReadyTask>,
    m0: PhysMem,
    m1: PhysMem,
    trampoline: u64,
    kernel_stack_top: usize,
    kernel: KernelInfo,
    r: isize,
) -> bool {
    let c = t1.inner.children@.last();
    let p = t0.inner;
    &&& !pids0.in_use(c.pid as int)
    &&& pids1.in_use(c.pid as int)
    &&& forall|q: int| q != c.pid ==> #[trigger] pids1.in_use(q) == pids0.in_use(q)
    &&& r == #[verifier::truncate] (c.pid as isize)
    &&& t1.inner.children@.len() == t0.inner.children@.len() + 1
    &&& t1.inner.children@.take(t0.inner.children@.len() as int) == t0.inner.children@
    &&& t1.inner == (TaskControlBlockInner { children: t1.inner.children, ..t0.inner })
    &&& space_copied(t0.inner.memory_set, m0, c.inner.memory_set, m1, trampoline)
    &&& c.inner.parent == Some(t0.pid)
    &&& c.inner.trap_cx == (TrapContext { x: c.inner.trap_cx.x, kernel_sp: kernel_stack_top, ..p.trap_cx })
    &&& c.inner.trap_cx.x@ == p.trap_cx.x@.update(10, 0)
    &&& c.inner.task_cx.ra() == kernel.trap_return
    &&& c.inner.task_cx.sp() == kernel_stack_top
    &&& c.inner.task_status == crate::task::TaskStatus::Ready
    &&& c.inner.base_size == p.base_size
    &&& c.inner.heap_bottom == p.heap_bottom
    &&& c.inner.program_brk == p.program_brk
    &&& c.inner.stride == 0
    &&& c.inner.prio == crate::process::DEFAULT_PRIO
    &&& c.inner.children@.len() == 0
    &&& c.inner.exit_code == 0
    &&& c.inner.fd_table@ == p.fd_table@
    &&& c.inner.signals.value() == 0
    &&& c.inner.signal_mask == p.signal_mask
    &&& c.inner.handling_sig == -1
    &&& c.inner.signal_actions@ == p.signal_actions@
    &&& c.inner.trap_ctx_backup is None
    &&& queue1 == queue0.push(ReadyTask { pid: c.pid, stride: 0, prio: crate::process::DEFAULT_PRIO })
}

/// Reap a zombie child that matches `pid` (-1: any); see
/// `TaskControlBlock::waitpid`. Returns the child's PID, with its exit
/// code stored at the caller's user address `exit_code_ptr` as 4
/// little-endian bytes (nothing is stored when a byte of them may not be
/// stored there, see `store_user`); or -1 (no child matches) or -2 (none of
/// them has exited), with nothing reaped or stored.
pub fn sys_waitpid(task: &mut TaskControlBlock, mem: &mut PhysMem, pid: isize, exit_code_ptr: usize) -> (r: isize)
    requires
        old(task).inner.memory_set.wf(old(mem)),
    ensures
        final(task).pid == old(task).pid,
        final(task).inner.memory_set == old(task).inner.memory_set,
        final(task).inner.memory_set.wf(final(mem)),
        ({
            let kids = old(task).inner.children@;
            let none = forall|k: int| 0 <= k < kids.len() ==> !child_matches(#[trigger] kids[k], pid);
            let running = forall|k: int| 0 <= k < kids.len() ==> !reapable(#[trigger] kids[k], pid);
            &&& none ==> r == -1 && final(task).inner.children@ == kids && *final(mem) == *old(mem)
            &&& !none && running ==> r == -2 && final(task).inner.children@ == kids && *final(mem)
                == *old(mem)
            &&& !running ==> exists|i: int|
                {
                    &&& 0 <= i < kids.len()
                    &&& reapable(kids[i], pid)
                    &&& forall|k: int| 0 <= k < i ==> !reapable(#[trigger] kids[k], pid)
                    &&& r == #[verifier::truncate] (kids[i].pid as isize)
                    &&& final(task).inner.children@ == kids.remove(i)
                    &&& user_store_ok(old(task).inner.memory_set, *old(mem), exit_code_ptr as int, 4)
                        ==> stored(
                        old(task).inner.memory_set,
                        *old(mem),
                        *final(mem),
                        exit_code_ptr as int,
                        le_encode((kids[i].inner.exit_code as u32) as int, 4),
                    )
                    &&& !user_store_ok(old(task).inner.memory_set, *old(mem), exit_code_ptr as int, 4)
                        ==> *final(mem) == *old(mem)
                }
        }),
{
    match task.waitpid(pid) {
        Ok((found, code)) => {
            proof {
                let i = choose|i: int|
                    {
                        &&& 0 <= i < old(task).inner.children@.len()
                        &&& reapable(old(task).inner.children@[i], pid)
                        &&& forall|k: int|
                            0 <= k < i ==> !reapable(#[trigger] old(task).inner.children@[k], pid)
                        &&& found == old(task).inner.children@[i].pid
                        &&& code == old(task).inner.children@[i].inner.exit_code
                        &&& task.inner.children@ == old(task).inner.children@.remove(i)
                    };
                assert(child_matches(old(task).inner.children@[i], pid));
                assert(reapable(old(task).inner.children@[i], pid));
            }
            let mut bytes: Vec<u8> = Vec::new();
            push_le(&mut bytes, code as u32 as u64, 4);
            store_user(&task.inner.memory_set, mem, exit_code_ptr, &bytes);
            #[verifier::truncate] (found as isize)
        },
        Err(e) => {
            proof {
                if exists|k: int| 0 <= k < old(task).inner.children@.len() && reapable(#[trigger] old(task).inner.children@[k], pid) {
                    let k = choose|k: int| 0 <= k < old(task).inner.children@.len() && reapable(#[trigger] old(task).inner.children@[k], pid);
                    assert(child_matches(old(task).inner.children@[k], pid));
                }
            }
            e
        },
    }
}

/// Send signal `signum` to `target`, the process with the requested PID
/// (where no process has it, the call returns -1). 0 when the signal is
/// added to its pending signals; -1, with nothing changed, when it is
/// already pending.
pub fn sys_kill(target: &mut TaskControlBlock, signum: i32) -> (r: isize)
    requires
        0 <= signum <= MAX_SIG,
    ensures
        ({
            let bit = 1u32 << (signum as u32);
            &&& old(target).inner.signals.value() & bit == bit ==> r == -1 && *final(target)
                == *old(target)
            &&& old(target).inner.signals.value() & bit != bit ==> r == 0
                && final(target).inner.signals.value() == old(target).inner.signals.value() | bit
        }),
        final(target).pid == old(target).pid,
        final(target).inner.signal_mask == old(target).inner.signal_mask,
        final(target).inner.task_status == old(target).inner.task_status,
{
    let flag = SignalFlags::single(signum as u32);
    if target.inner.signals.contains(flag) {
        return -1;
    }
    target.inner.signals.insert(flag);
    0
}

/// The address `v` is a canonical Sv39 address: bits 63..38 all equal.
pub open spec fn canonical(v: int) -> bool {
    0 <= v < VA_LIMIT / 2 || u64::MAX - VA_LIMIT / 2 < v <= u64::MAX
}

/// The end of the user range that starts at `start` and spans `len` bytes,
/// rounded up to a page boundary.
pub open spec fn user_range_end(start: int, len: int) -> int {
    (start + len + PAGE_SIZE - 1) / (PAGE_SIZE as int) * (PAGE_SIZE as int)
}

/// The user range `[start, start + len)`, rounded up to pages, is a
/// non-empty range of canonical addresses.
pub open spec fn user_range_ok(start: int, len: int) -> bool {
    let end = user_range_end(start, len);
    &&& start + len + PAGE_SIZE - 1 <= usize::MAX
    &&& canonical(start)
    &&& canonical(end)
    &&& start % (VA_LIMIT as int) < end % (VA_LIMIT as int)
}

proof fn lemma_round_down(x: u64)
    ensures
        x & !0xfffu64 == x / 4096 * 4096,
{
    assert(x & !0xfffu64 == x / 4096 * 4096) by (bit_vector);
}

proof fn lemma_canonical(v: u64)
    ensures
        sign_extend(v % VA_LIMIT) == v <==> canonical(v as int),
{
}

/// The Sv39 addresses of the user range `[start, start + len)` rounded up
/// to pages, when it is a non-empty range of canonical addresses.
fn user_page_range(start: usize, len: usize) -> (r: Option<(VirtAddr, VirtAddr)>)
    ensures
        r is Some <==> user_range_ok(start as int, len as int),
        r matches Some((s, e)) ==> s.0 == (start as int) % (VA_LIMIT as int) && e.0 == user_range_end(
            start as int,
            len as int,
        ) % (VA_LIMIT as int),
{
    let a = match start.checked_add(len) {
        Some(a) => a,
        None => {
            return None;
        },
    };
    let b = match a.checked_add(PAGE_SIZE - 1) {
        Some(b) => b,
        None => {
            return None;
        },
    };
    let end: u64 = (b as u64) & !0xfffu64;
    proof {
        lemma_round_down(b as u64);
        lemma_canonical(start as u64);
        lemma_canonical(end);
    }
    let start_va = VirtAddr::from_usize(start as u64);
    let end_va = VirtAddr::from_usize(end);
    if start_va.to_usize() != start as u64 || end_va.to_usize() != end || start_va.0 >= end_va.0 {
        return None;
    }
    Some((start_va, end_va))
}

/// Set the calling process's priority; see `TaskControlBlock::set_priority`.
pub fn sys_set_priority(task: &mut TaskControlBlock, prio: isize) -> (r: isize)
    ensures
        prio < 2 ==> r == -1 && *final(task) == *old(task),
        prio >= 2 ==> r == prio && final(task).inner == (TaskControlBlockInner {
            prio: prio as usize,
            ..old(task).inner
        }),
        final(task).pid == old(task).pid,
{
    task.set_priority(prio)
}

/// Replace the calling process's signal mask with `mask` and return the
/// old mask's bits.
pub fn sys_sigprocmask(task: &mut TaskControlBlock, mask: u32) -> (r: isize)
    ensures
        r == old(task).inner.signal_mask.value() as isize,
        final(task).inner.signal_mask.value() == mask,
        final(task).inner.signals == old(task).inner.signals,
        final(task).pid == old(task).pid,
{
    let old_mask = task.inner.signal_mask;
    match SignalFlags::from_bits(mask) {
        Some(flag) => {
            task.inner.signal_mask = flag;
            old_mask.bits() as isize
        },
        None => -1,
    }
}

/// Return from a signal handler: the trap context saved on entry to the
/// handler is restored, no signal is being handled, and the result is the
/// restored a0, so that the register keeps its value.
pub fn sys_sigreturn(task: &mut TaskControlBlock) -> (r: isize)
    requires
        old(task).inner.trap_ctx_backup is Some,
    ensures
        final(task).inner.handling_sig == -1,
        final(task).inner.trap_cx == old(task).inner.trap_ctx_backup.unwrap(),
        r == old(task).inner.trap_ctx_backup.unwrap().x@[10] as isize,
        final(task).pid == old(task).pid,
        final(task).inner.signals == old(task).inner.signals,
{
    task.inner.handling_sig = -1;
    let backup = match task.inner.trap_ctx_backup {
        Some(cx) => cx,
        None => {
            return -1;
        },
    };
    task.inner.trap_cx = backup;
    task.inner.trap_cx.x[10] as isize
}

/// A request to change the action of `signal` is refused: a null pointer
/// for the new or the old action, or a signal that cannot be caught.
fn check_sigaction_error(signal: SignalFlags, action: usize, old_action: usize) -> (r: bool)
    ensures
        r == (action == 0 || old_action == 0 || signal.value() == SignalFlags::SIGKILL
            || signal.value() == SignalFlags::SIGSTOP),
{
    if action == 0 || old_action == 0 || signal.bits() == SignalFlags::SIGKILL || signal.bits()
        == SignalFlags::SIGSTOP {
        true
    } else {
        false
    }
}

/// The size of a `SignalAction` in user memory, in bytes.
pub const SIGACTION_SIZE: usize = 16;

/// The 16 bytes of `a` in user memory: the handler (8 bytes) and the mask
/// (4 bytes), little-endian, then 4 zero bytes of padding.
pub open spec fn action_bytes(a: SignalAction) -> Seq<u8> {
    le_encode(a.handler as int, 8) + le_encode(a.mask.value() as int, 4) + le_encode(0, 4)
}

/// `a` is the action that the 16 bytes `b` of user memory hold.
pub open spec fn action_from_bytes(a: SignalAction, b: Seq<u8>) -> bool {
    &&& a.handler == le_bytes(b, 0, 8) as usize
    &&& a.mask.value() == le_bytes(b, 8, 4) as u32
}

/// Store the action of signal `signum` at the caller's user address
/// `old_action`, then install as its action the one that the caller's user
/// address `action` holds. 0; -1, with nothing changed, when `signum` is not
/// a signal number, either address is null, the signal is `SIGKILL` or
/// `SIGSTOP`, a byte at `old_action` may not be stored (see `store_user`),
/// or a byte at `action` may not be loaded (see `load_user`).
pub fn sys_sigaction(task: &mut TaskControlBlock, mem: &mut PhysMem, signum: i32, action: usize, old_action: usize) -> (r: isize)
    requires
        old(task).inner.signal_actions@.len() == MAX_SIG + 1,
        old(task).inner.memory_set.wf(old(mem)),
    ensures
        final(task).inner.signal_actions@.len() == MAX_SIG + 1,
        final(task).pid == old(task).pid,
        final(task).inner.memory_set == old(task).inner.memory_set,
        final(task).inner.memory_set.wf(final(mem)),
        ({
            let ms = old(task).inner.memory_set;
            let refused = signum < 0 || signum > MAX_SIG || action == 0 || old_action == 0 || signum == 9
                || signum == 19;
            let reachable = user_store_ok(ms, *old(mem), old_action as int, SIGACTION_SIZE as int)
                && user_load_ok(ms, action as int, SIGACTION_SIZE as int);
            &&& refused || !reachable ==> r == -1 && *final(task) == *old(task) && *final(mem) == *old(mem)
            &&& !refused && reachable ==> r == 0 && stored(
                ms,
                *old(mem),
                *final(mem),
                old_action as int,
                action_bytes(old(task).inner.signal_actions@[signum as int]),
            ) && final(task).inner.signal_actions@ == old(task).inner.signal_actions@.update(
                signum as int,
                final(task).inner.signal_actions@[signum as int],
            ) && action_from_bytes(
                final(task).inner.signal_actions@[signum as int],
                user_bytes(ms, *final(mem), action as int, SIGACTION_SIZE as int),
            )
        }),
{
    if signum < 0 || signum as usize > MAX_SIG {
        return -1;
    }
    let flag = match SignalFlags::from_bits(1u32 << (signum as u32)) {
        Some(f) => f,
        None => {
            return -1;
        },
    };
    proof {
        let n = signum as u32;
        assert(n == 9 ==> 1u32 << n == 512u32) by (bit_vector);
        assert(n == 19 ==> 1u32 << n == 0x8_0000u32) by (bit_vector);
        assert(n < 32 && n != 9 ==> 1u32 << n != 512u32) by (bit_vector);
        assert(n < 32 && n != 19 ==> 1u32 << n != 0x8_0000u32) by (bit_vector);
    }
    if check_sigaction_error(flag, action, old_action) {
        return -1;
    }
    if !check_user_load(&task.inner.memory_set, action as u64, SIGACTION_SIZE as u64) {
        return -1;
    }
    let prev_action = task.inner.signal_actions[signum as usize];
    let mut bytes: Vec<u8> = Vec::new();
    push_le(&mut bytes, prev_action.handler as u64, 8);
    push_le(&mut bytes, prev_action.mask.bits() as u64, 4);
    push_le(&mut bytes, 0, 4);
    assert(bytes@ =~= action_bytes(prev_action));
    if !store_user(&task.inner.memory_set, mem, old_action, &bytes) {
        return -1;
    }
    let raw = match load_user(&task.inner.memory_set, mem, action as u64, SIGACTION_SIZE as u64) {
        Some(v) => v,
        None => {
            return -1;
        },
    };
    let handler = crate::elf::read_le(&raw, 0, 8) as usize;
    let mask = match SignalFlags::from_bits(crate::elf::read_le(&raw, 8, 4) as u32) {
        Some(m) => m,
        None => {
            return -1;
        },
    };
    task.inner.signal_actions.set(signum as usize, SignalAction { handler, mask });
    0
}

/// The first page of the user range that starts at `start`.
pub open spec fn range_first_page(start: int) -> int {
    floor_page(VirtAddr((start % (VA_LIMIT as int)) as u64))
}

/// The page after the last of the user range `[start, start + len)`.
pub open spec fn range_end_page(start: int, len: int) -> int {
    ceil_page(VirtAddr((user_range_end(start, len) % (VA_LIMIT as int)) as u64))
}

/// The arguments of an `mmap` are refused: an unaligned start, or
/// permissions that are empty or have bits other than read, write and
/// execute.
pub open spec fn mmap_bad_args(start: usize, prot: usize) -> bool {
    start % PAGE_SIZE != 0 || prot == 0 || prot & !7usize != 0
}

/// A page of the user range `[start, start + len)` is already mapped.
pub open spec fn range_clash(ms: MemorySet, mem: PhysMem, start: int, len: int) -> bool {
    exists|p: int|
        range_first_page(start) <= p < range_end_page(start, len) && #[trigger] ms.mapped(
            &mem,
        ).contains_key(p)
}

/// Map `[start, start + len)`, rounded up to pages, in the calling process
/// as fresh zeroed memory, accessible in user mode with the permissions
/// `prot` (bit 0: read, 1: write, 2: execute). 0 on success, or when `len`
/// is 0 (nothing is mapped); -1, with nothing changed, when `start` is not
/// page-aligned, `prot` is 0 or has other bits, the range is not canonical
/// or overflows, a page of it is already mapped, or frames run out.
#[verifier::spinoff_prover]
pub fn sys_mmap(task: &mut TaskControlBlock, mem: &mut PhysMem, start: usize, len: usize, prot: usize) -> (r: isize)
    requires
        old(task).inner.memory_set.wf(old(mem)),
    ensures
        final(task).inner.memory_set.wf(final(mem)),
        final(task).pid == old(task).pid,
        r == 0 || r == -1,
        mmap_bad_args(start, prot) ==> r == -1,
        !mmap_bad_args(start, prot) && len == 0 ==> r == 0,
        !mmap_bad_args(start, prot) && len > 0 && !user_range_ok(start as int, len as int) ==> r
            == -1,
        !mmap_bad_args(start, prot) && len > 0 && user_range_ok(start as int, len as int)
            && range_clash(old(task).inner.memory_set, *old(mem), start as int, len as int) ==> r == -1,
        !mmap_bad_args(start, prot) && len > 0 && user_range_ok(start as int, len as int)
            && !range_clash(old(task).inner.memory_set, *old(mem), start as int, len as int)
            && old(mem).free_count() >= 3 * (range_end_page(start as int, len as int)
            - range_first_page(start as int)) ==> r == 0,
        r == 0 && len > 0 ==> old(mem).free_count() >= range_end_page(start as int, len as int)
            - range_first_page(start as int),
        mmap_bad_args(start, prot) || len == 0 || !user_range_ok(start as int, len as int)
            || range_clash(old(task).inner.memory_set, *old(mem), start as int, len as int)
            ==> *final(task) == *old(task) && *final(mem) == *old(mem),
        r == -1 ==> final(task).inner.memory_set.areas() == old(task).inner.memory_set.areas()
            && final(task).inner.memory_set.mapped(final(mem)) == old(task).inner.memory_set.mapped(
            old(mem),
        ),
        r == 0 && len > 0 ==> area_appended(
            old(task).inner.memory_set,
            *old(mem),
            final(task).inner.memory_set,
            *final(mem),
            range_first_page(start as int),
            range_end_page(start as int, len as int),
            ((prot as u8) << 1u8) | MapPermission::U,
        ),
{
    if start % PAGE_SIZE != 0 || prot == 0 || prot & !7usize != 0 {
        return -1;
    }
    if len == 0 {
        return 0;
    }
    let (start_va, end_va) = match user_page_range(start, len) {
        Some(range) => range,
        None => {
            return -1;
        },
    };
    proof {
        assert(prot < 8) by (bit_vector)
            requires
                prot & !7usize == 0,
        ;
    }
    let bits: u8 = ((prot as u8) << 1u8) | MapPermission::U;
    proof {
        let pb = prot as u8;
        assert(pb < 8 ==> ((pb << 1u8) | 16u8) & 0xe1u8 == 0) by (bit_vector);
    }
    let permission = match MapPermission::from_bits(bits) {
        Some(p) => p,
        None => {
            return -1;
        },
    };
    let ghost ms0 = task.inner.memory_set;
    proof {
        let s = range_first_page(start as int);
        let e = range_end_page(start as int, len as int);
        assert(floor_page(start_va) == s);
        assert(ceil_page(end_va) == e);
        if range_clash(ms0, *mem, start as int, len as int) {
            let p = choose|p: int| s <= p < e && #[trigger] ms0.mapped(mem).contains_key(p);
            assert(floor_page(start_va) <= p < ceil_page(end_va));
        }
    }
    match task.inner.memory_set.mmap(mem, start_va, end_va, permission) {
        Some(()) => 0,
        None => -1,
    }
}

/// Unmap the area of the calling process whose pages are exactly
/// `[start, start + len)` rounded up to pages, returning its frames. 0 on
/// success, or when `len` is 0 (nothing changes); -1, with nothing changed,
/// when `start` is not page-aligned, the range is not canonical or
/// overflows, or no area has these bounds.
pub fn sys_munmap(task: &mut TaskControlBlock, mem: &mut PhysMem, start: usize, len: usize) -> (r: isize)
    requires
        old(task).inner.memory_set.wf(old(mem)),
    ensures
        final(task).inner.memory_set.wf(final(mem)),
        final(task).pid == old(task).pid,
        r == 0 || r == -1,
        start % PAGE_SIZE != 0 ==> r == -1,
        start % PAGE_SIZE == 0 && len == 0 ==> r == 0,
        start % PAGE_SIZE == 0 && len > 0 && !user_range_ok(start as int, len as int) ==> r == -1,
        start % PAGE_SIZE == 0 && len > 0 && user_range_ok(start as int, len as int) ==> (r == 0
            <==> exists|a: int|
            0 <= a < old(task).inner.memory_set.areas().len() && (#[trigger] old(
                task,
            ).inner.memory_set.areas()[a]).start() == range_first_page(start as int) && old(
                task,
            ).inner.memory_set.areas()[a].end() == range_end_page(start as int, len as int)),
        r == -1 || len == 0 ==> final(task).inner.memory_set.areas() == old(
            task,
        ).inner.memory_set.areas() && final(task).inner.memory_set.mapped(final(mem)) == old(
            task,
        ).inner.memory_set.mapped(old(mem)),
        r == 0 && len > 0 ==> exists|i: int|
            #![trigger old(task).inner.memory_set.areas()[i]]
            {
                let area = old(task).inner.memory_set.areas()[i];
                &&& 0 <= i < old(task).inner.memory_set.areas().len()
                &&& area.start() == range_first_page(start as int)
                &&& area.end() == range_end_page(start as int, len as int)
                &&& final(task).inner.memory_set.areas() == old(task).inner.memory_set.areas().remove(i)
                &&& final(mem).free_count() == old(mem).free_count() + (area.end() - area.start())
                &&& forall|q: int|
                    #[trigger] final(mem).is_allocated(q) == (old(mem).is_allocated(q) && !exists|k: int|
                        0 <= k < area.frames().len() && area.frames()[k].0 == q)
            },
        r == 0 && len > 0 ==> forall|p: int|
            #[trigger] final(task).inner.memory_set.mapped(final(mem)).contains_key(p) == (old(
                task,
            ).inner.memory_set.mapped(old(mem)).contains_key(p) && !(range_first_page(start as int)
                <= p < range_end_page(start as int, len as int))),
{
    if start % PAGE_SIZE != 0 {
        return -1;
    }
    if len == 0 {
        return 0;
    }
    let (start_va, end_va) = match user_page_range(start, len) {
        Some(range) => range,
        None => {
            return -1;
        },
    };
    proof {
        assert(floor_page(start_va) == range_first_page(start as int));
        assert(ceil_page(end_va) == range_end_page(start as int, len as int));
    }
    match task.inner.memory_set.munmap(mem, start_va, end_va) {
        Some(()) => 0,
        None => -1,
    }
}

/// The heap of `task` would grow by `size` bytes into a mapped page, or
/// past the end of the Sv39 space.
pub open spec fn brk_growth_refused(task: TaskControlBlock, mem: PhysMem, size: int) -> bool {
    let brk = task.inner.program_brk as int;
    ||| brk + size > VA_LIMIT
    ||| exists|p: int|
        heap_end(brk) <= p < heap_end(brk + size) && #[trigger] task.inner.memory_set.mapped(
            &mem,
        ).contains_key(p)
}

/// Move the calling process's program break by `size` bytes; see
/// `TaskControlBlock::change_program_brk`. Returns the old break, or -1:
/// also when growth would reach a mapped page or leave the Sv39 space, with
/// nothing changed.
pub fn sys_sbrk(task: &mut TaskControlBlock, mem: &mut PhysMem, size: i32) -> (r: isize)
    requires
        old(task).inner.memory_set.wf(old(mem)),
        old(task).heap_consistent(),
        old(task).inner.heap_bottom <= isize::MAX,
        old(task).inner.program_brk + i32::MAX <= isize::MAX,
    ensures
        final(task).inner.memory_set.wf(final(mem)),
        final(task).heap_consistent(),
        old(task).inner.program_brk + size < old(task).inner.heap_bottom ==> r == -1
            && *final(task) == *old(task),
        size >= 0 && brk_growth_refused(*old(task), *old(mem), size as int) ==> r == -1
            && *final(task) == *old(task) && *final(mem) == *old(mem),
        old(task).inner.program_brk + size >= old(task).inner.heap_bottom && size < 0 ==> (r != -1
            <==> old(task).has_heap_area()),
        old(task).inner.program_brk + size >= old(task).inner.heap_bottom && size >= 0
            && !brk_growth_refused(*old(task), *old(mem), size as int) && old(task).has_heap_area()
            && old(mem).free_count() >= 3 * (heap_end(old(task).inner.program_brk + size) - heap_end(
            old(task).inner.program_brk as int,
        )) ==> r != -1,
        r != -1 ==> r == old(task).inner.program_brk as isize && final(task).inner.program_brk
            == old(task).inner.program_brk + size,
        r == -1 ==> final(task).inner.program_brk == old(task).inner.program_brk
            && final(task).inner.memory_set.mapped(final(mem)) == old(task).inner.memory_set.mapped(
            old(mem),
        ),
{
    if size >= 0 {
        let brk = task.inner.program_brk as u64;
        let grow = size as u64;
        if brk > VA_LIMIT || grow > VA_LIMIT - brk {
            return -1;
        }
        let lo = VirtAddr(brk);
        let hi = VirtAddr(brk + grow);
        proof {
            crate::memory_set::lemma_page_bounds(lo, hi);
            crate::memory_set::lemma_page_bounds(hi, VirtAddr(VA_LIMIT));
            assert(ceil_page(VirtAddr(VA_LIMIT)) == VPN_LIMIT);
        }
        if task.inner.memory_set.has_mapped_pages(mem, lo.ceil(), hi.ceil()) {
            return -1;
        }
    }
    match task.change_program_brk(mem, size) {
        Some(old_brk) => old_brk as isize,
        None => -1,
    }
}

/// `c` is a process newly built from the ELF image `image`, with the
/// trampoline in frame `trampoline` and kernel stack top `kernel_stack_top`,
/// made a child of the process `ppid`: its address space loads the image
/// in `mem`, it is about to enter the image's entry point with its user
/// stack at the top of that space, and it is ready with no child.
pub open spec fn spawned_child(
    c: TaskControlBlock,
    ppid: usize,
    mem: PhysMem,
    image: Seq<u8>,
    trampoline: u64,
    kernel_stack_top: usize,
    kernel: KernelInfo,
) -> bool {
    let sp = image_stack_top(image);
    &&& c.inner.parent == Some(ppid)
    &&& elf_space(c.inner.memory_set, mem, image, sp as u64, e_entry(image) as u64, trampoline)
    &&& segments_loaded(c.inner.memory_set, mem, image, e_phnum(image))
    &&& crate::trap::app_entry_context(
        c.inner.trap_cx,
        #[verifier::truncate] (e_entry(image) as usize),
        #[verifier::truncate] (sp as usize),
        kernel.sstatus,
        kernel.kernel_satp,
        kernel_stack_top,
        kernel.trap_handler,
    )
    &&& c.inner.task_status == crate::task::TaskStatus::Ready
    &&& c.inner.children@.len() == 0
    &&& c.inner.stride == 0
    &&& c.inner.prio == crate::process::DEFAULT_PRIO
}

/// The outcome of spawning the file `name` of `fs0` from process `t0`, with
/// identifiers `pids0`, ready queue `q0` and memory `m0`: `t1`, `pids1`,
/// `q1`, `m1` and result `r`. -1 with nothing changed when no file has
/// that name or its contents are not a valid image; a child is created when
/// the image is loadable in the free frames of `m0`; when one is, it has a
/// PID that was not in use, it is built from the image (`spawned_child`),
/// it is the last child and the last on the queue, and `r` is its PID.
pub open spec fn spawn_done(
    t0: TaskControlBlock,
    t1: TaskControlBlock,
    pids0: PidAllocator,
    pids1: PidAllocator,
    q0: Seq<ReadyTask>,
    q1: Seq<ReadyTask>,
    m0: PhysMem,
    m1: PhysMem,
    fs0: FileSystem,
    name: Seq<u8>,
    r: isize,
    trampoline: u64,
    kernel_stack_top: usize,
    kernel: KernelInfo,
) -> bool {
    let image = file_image(fs0, name);
    let kids = t1.inner.children@;
    let c = kids.last();
    &&& pids1.wf()
    &&& m1.wf()
    &&& t1.pid == t0.pid
    &&& t1.inner.memory_set == t0.inner.memory_set
    &&& t1.inner.memory_set.wf(&m1)
    &&& kids.len() == t0.inner.children@.len() ==> r == -1 && t1 == t0 && pids1 == pids0 && q1 == q0
    &&& !has_name(fs0.slots(), name) ==> r == -1 && t1 == t0 && m1 == m0
    &&& has_name(fs0.slots(), name) && !valid_elf(image) ==> r == -1 && t1 == t0 && m1 == m0
    &&& has_name(fs0.slots(), name) && elf_loadable(image, m0.free_count() as int) ==> kids.len()
        == t0.inner.children@.len() + 1
    &&& kids.len() != t0.inner.children@.len() ==> {
        &&& has_name(fs0.slots(), name)
        &&& !pids0.in_use(c.pid as int)
        &&& pids1.in_use(c.pid as int)
        &&& forall|p: int| p != c.pid ==> #[trigger] pids1.in_use(p) == pids0.in_use(p)
        &&& r == #[verifier::truncate] (c.pid as isize)
        &&& kids.len() == t0.inner.children@.len() + 1
        &&& kids.drop_last() == t0.inner.children@
        &&& spawned_child(c, t0.pid, m1, image, trampoline, kernel_stack_top, kernel)
        &&& q1 == q0.push(ReadyTask { pid: c.pid, stride: 0, prio: crate::process::DEFAULT_PRIO })
    }
}

/// Create a process from the ELF image of the file named by the
/// NUL-terminated string at the caller's user address `path` (see
/// `spawn_path`); -1, with nothing changed, when the name cannot be loaded
/// from user memory (see `load_user_str`).
pub fn sys_spawn(
    task: &mut TaskControlBlock,
    manager: &mut TaskManager,
    pids: &mut PidAllocator,
    mem: &mut PhysMem,
    fs: &mut FileSystem,
    path: usize,
    trampoline: PhysPageNum,
    kernel_stack_top: usize,
    kernel: KernelInfo,
) -> (r: isize)
    requires
        old(pids).wf(),
        old(pids).next_unused() < usize::MAX,
        old(task).inner.memory_set.wf(old(mem)),
        old(fs).wf(),
        trampoline.0 < crate::address::PPN_LIMIT,
    ensures
        *final(fs) == *old(fs),
        final(task).inner.memory_set.wf(final(mem)),
        (forall|s: Seq<u8>| !#[trigger] user_string(old(task).inner.memory_set, *old(mem), path as int, s))
            ==> r == -1 && *final(task) == *old(task) && *final(pids) == *old(pids) && final(manager).queue()
            == old(manager).queue() && *final(mem) == *old(mem),
        forall|s: Seq<u8>|
            user_string(old(task).inner.memory_set, *old(mem), path as int, s) ==> #[trigger] spawn_done(
                *old(task),
                *final(task),
                *old(pids),
                *final(pids),
                old(manager).queue(),
                final(manager).queue(),
                *old(mem),
                *final(mem),
                *old(fs),
                s,
                r,
                trampoline.0,
                kernel_stack_top,
                kernel,
            ),
{
    let name = match load_user_str(&task.inner.memory_set, mem, path as u64) {
        Some(s) => s,
        None => {
            return -1;
        },
    };
    let ghost t0 = *task;
    let ghost m0 = *mem;
    let r = spawn_path(task, manager, pids, mem, fs, &name, trampoline, kernel_stack_top, kernel);
    proof {
        assert forall|s: Seq<u8>| user_string(t0.inner.memory_set, m0, path as int, s) implies #[trigger] spawn_done(
            t0,
            *task,
            *old(pids),
            *pids,
            old(manager).queue(),
            manager.queue(),
            m0,
            *mem,
            *old(fs),
            s,
            r,
            trampoline.0,
            kernel_stack_top,
            kernel,
        ) by {
            lemma_user_string_unique(t0.inner.memory_set, m0, path as int, s, name@);
        }
    }
    r
}

/// Create a process from the ELF image of the file `path` of the root
/// directory (see `MemorySet::from_elf` and `TaskControlBlock::new`), with
/// a PID that was not in use, taken from `pids`, the trampoline in frame
/// `trampoline` and kernel stack top `kernel_stack_top`; make it the last
/// child of the calling process, put it on the ready queue and return its
/// PID. -1, with the process, the queue and the identifiers unchanged, when
/// no file has that name, its contents are not a valid image, or frames
/// run out.
pub fn spawn_path(
    task: &mut TaskControlBlock,
    manager: &mut TaskManager,
    pids: &mut PidAllocator,
    mem: &mut PhysMem,
    fs: &mut FileSystem,
    path: &Vec<u8>,
    trampoline: PhysPageNum,
    kernel_stack_top: usize,
    kernel: KernelInfo,
) -> (r: isize)
    requires
        old(pids).wf(),
        old(pids).next_unused() < usize::MAX,
        old(task).inner.memory_set.wf(old(mem)),
        old(fs).wf(),
        trampoline.0 < crate::address::PPN_LIMIT,
    ensures
        *final(fs) == *old(fs),
        spawn_done(
            *old(task),
            *final(task),
            *old(pids),
            *final(pids),
            old(manager).queue(),
            final(manager).queue(),
            *old(mem),
            *final(mem),
            *old(fs),
            path@,
            r,
            trampoline.0,
            kernel_stack_top,
            kernel,
        ),
{
    proof {
        task.inner.memory_set.lemma_walks(mem, 0);
        assert(0u32 & 512u32 == 0u32) by (bit_vector);
        assert(0u32 & 1024u32 == 0u32) by (bit_vector);
    }
    let flags = OpenFlags::read_only();
    let mut file = match open_file(fs, path, flags) {
        Some(f) => f,
        None => {
            return -1;
        },
    };
    let data = file.read_all(fs);
    proof {
        let i = choose|i: int| #[trigger] first_match(fs.slots(), i, path@) && file.node().id == fs.slots()[i].1;
        let i2 = choose|i2: int| first_match(fs.slots(), i2, path@);
        lemma_first_match_unique(fs.slots(), i, i2, path@);
        let d = fs.data(fs.slots()[i].1 as int);
        assert(data@ =~= d);
        assert(data@ == file_image(*fs, path@));
    }
    let ghost m0 = *mem;
    let (ms, sp, entry) = match MemorySet::from_elf(mem, &data, trampoline) {
        Some(t) => t,
        None => {
            proof {
                task.inner.memory_set.lemma_wf_kept_by(&m0, mem);
            }
            return -1;
        },
    };
    proof {
        task.inner.memory_set.lemma_wf_kept_by(&m0, mem);
    }
    let child = TaskControlBlock::new(
        pids,
        ms,
        #[verifier::truncate] (sp as usize),
        #[verifier::truncate] (entry as usize),
        kernel_stack_top,
        kernel,
    );
    let stride = child.inner.stride;
    let prio = child.inner.prio;
    let ghost before = task.inner.children@;
    let pid = task.spawn(child);
    manager.add(ReadyTask { pid, stride, prio });
    proof {
        assert(task.inner.children@.drop_last() =~= before);
    }
    #[verifier::truncate] (pid as isize)
}

/// The page-table flags that a user page needs for the kernel to write into
/// it on the process's behalf: valid, writable and user-accessible.
pub const USER_WRITABLE: u8 = 21;

/// Address `a` is canonical and lies in a page that `ms` maps valid,
/// writable and user-accessible.
pub open spec fn user_writable_at(ms: MemorySet, mem: PhysMem, a: int) -> bool {
    &&& canonical(a)
    &&& lookup(mem.ptes(), ms.root(), (a % (VA_LIMIT as int)) / (PAGE_SIZE as int)) matches Some(e)
        && pte_flags(e.bits) & USER_WRITABLE == USER_WRITABLE
}

/// Every byte of `[start, start + len)` is a user address that the kernel
/// may write.
pub open spec fn user_dest_ok(ms: MemorySet, mem: PhysMem, start: int, len: int) -> bool {
    forall|a: int| start <= a < start + len ==> #[trigger] user_writable_at(ms, mem, a)
}

/// The addresses of one page share their page number and their
/// canonicity.
proof fn lemma_same_page(s: int, a: int)
    requires
        0 <= s <= a < s - s % 4096 + 4096,
        a <= u64::MAX,
    ensures
        (a % (VA_LIMIT as int)) / 4096 == (s % (VA_LIMIT as int)) / 4096,
        canonical(a) == canonical(s),
{
    assert(a / 4096 == s / 4096) by (nonlinear_arith)
        requires
            0 <= s <= a < s - s % 4096 + 4096,
    ;
    vstd::arithmetic::div_mod::lemma_mod_breakdown(a, 4096, 0x800_0000);
    vstd::arithmetic::div_mod::lemma_mod_breakdown(s, 4096, 0x800_0000);
    assert((a % 0x80_0000_0000) / 4096 == (a / 4096) % 0x800_0000) by (nonlinear_arith)
        requires
            0 <= a,
            a % 0x80_0000_0000 == 4096 * ((a / 4096) % 0x800_0000) + a % 4096,
    ;
    assert((s % 0x80_0000_0000) / 4096 == (s / 4096) % 0x800_0000) by (nonlinear_arith)
        requires
            0 <= s,
            s % 0x80_0000_0000 == 4096 * ((s / 4096) % 0x800_0000) + s % 4096,
    ;
    assert(a < 0x40_0000_0000 <==> a / 4096 < 0x400_0000) by (nonlinear_arith)
        requires
            0 <= a,
    ;
    assert(s < 0x40_0000_0000 <==> s / 4096 < 0x400_0000) by (nonlinear_arith)
        requires
            0 <= s,
    ;
    assert(a > 0xffff_ffff_ffff_ffff - 0x40_0000_0000 <==> a / 4096 >= 0xf_ffff_fc00_0000) by (nonlinear_arith)
        requires
            0 <= a,
    ;
    assert(s > 0xffff_ffff_ffff_ffff - 0x40_0000_0000 <==> s / 4096 >= 0xf_ffff_fc00_0000) by (nonlinear_arith)
        requires
            0 <= s,
    ;
}

/// Whether every byte of `[start, start + len)` is a user address that the
/// kernel may write: `false` also when the range overflows.
#[verifier::spinoff_prover]
pub(crate) fn check_user_dest(ms: &MemorySet, mem: &PhysMem, start: usize, len: usize) -> (r: bool)
    requires
        ms.wf(mem),
    ensures
        r == (start + len <= usize::MAX && user_dest_ok(*ms, *mem, start as int, len as int)),
{
    let end = match start.checked_add(len) {
        Some(e) => e,
        None => {
            return false;
        },
    };
    let mut cur = start;
    while cur < end
        invariant
            ms.wf(mem),
            start <= cur <= end,
            end == start + len,
            forall|a: int| start <= a < cur ==> #[trigger] user_writable_at(*ms, *mem, a),
        decreases end - cur,
    {
        let va = VirtAddr::from_usize(cur as u64);
        proof {
            lemma_canonical(cur as u64);
        }
        if va.to_usize() != cur as u64 {
            assert(!user_writable_at(*ms, *mem, cur as int));
            return false;
        }
        let ok = match ms.translate(mem, va.floor()) {
            Some(pte) => pte.flags().contains(USER_WRITABLE),
            None => false,
        };
        if !ok {
            assert(!user_writable_at(*ms, *mem, cur as int));
            return false;
        }
        let room = (PAGE_SIZE as u64 - va.page_offset()) as usize;
        let step = if room < end - cur {
            room
        } else {
            end - cur
        };
        proof {
            assert((cur as int % (VA_LIMIT as int)) % 4096 == cur as int % 4096) by (nonlinear_arith);
            assert forall|a: int| cur <= a < cur + step implies #[trigger] user_writable_at(*ms, *mem, a) by {
                lemma_same_page(cur as int, a);
            }
        }
        cur = cur + step;
    }
    true
}

/// The 16 bytes of `tv` in user memory: the seconds, then the
/// microseconds, each as 8 little-endian bytes.
pub open spec fn timeval_bytes(tv: TimeVal) -> Seq<u8> {
    le_encode(tv.sec as int, 8) + le_encode(tv.usec as int, 8)
}

/// Store the time of day `us` microseconds, as seconds and microseconds,
/// at the caller's user address `ts`. 0; -1, with nothing stored, when a
/// byte of `[ts, ts + TIMEVAL_SIZE)` may not be stored there (see
/// `store_user`).
pub fn sys_get_time(task: &TaskControlBlock, mem: &mut PhysMem, ts: usize, us: usize) -> (r: isize)
    requires
        task.inner.memory_set.wf(old(mem)),
    ensures
        task.inner.memory_set.wf(final(mem)),
        r == 0 <==> user_store_ok(task.inner.memory_set, *old(mem), ts as int, TIMEVAL_SIZE as int),
        r != 0 ==> r == -1 && *final(mem) == *old(mem),
        r == 0 ==> stored(
            task.inner.memory_set,
            *old(mem),
            *final(mem),
            ts as int,
            timeval_bytes((TimeVal { sec: us / 1_000_000, usec: us % 1_000_000 })),
        ),
{
    let time = TimeVal { sec: us / 1_000_000, usec: us % 1_000_000 };
    let mut bytes: Vec<u8> = Vec::new();
    push_le(&mut bytes, time.sec as u64, 8);
    push_le(&mut bytes, time.usec as u64, 8);
    assert(bytes@ =~= timeval_bytes(time));
    if store_user(&task.inner.memory_set, mem, ts, &bytes) {
        0
    } else {
        -1
    }
}

/// The first live slot of a name is unique.
proof fn lemma_first_match_unique(slots: Seq<(Seq<u8>, u32)>, i: int, j: int, name: Seq<u8>)
    requires
        first_match(slots, i, name),
        first_match(slots, j, name),
    ensures
        i == j,
{
    if i < j {
        assert(!(slots[i].1 != 0 && slots[i].0 == name));
    } else if j < i {
        assert(!(slots[j].1 != 0 && slots[j].0 == name));
    }
}

/// The bytes of the file that the first live entry named `name` of the
/// root directory refers to.
pub open spec fn file_image(fs: FileSystem, name: Seq<u8>) -> Seq<u8> {
    let i = choose|i: int| first_match(fs.slots(), i, name);
    fs.data(fs.slots()[i].1 as int)
}

/// The user stack top of the address space that loading `image` builds.
pub open spec fn image_stack_top(image: Seq<u8>) -> int {
    (seg_max_end(loads(image, e_phnum(image))) + 1 + USER_STACK_PAGES) * PAGE_BYTES
}

/// The process `t0` ran the ELF image `image`: `t1` keeps its PID, has the
/// address space that loads `image` in `m1`, with the trampoline in frame
/// `trampoline`, is about to enter the image's entry point with its user
/// stack at the top of that space and kernel stack top `kernel_stack_top`,
/// has an empty heap at the stack top and the rest of `t0`'s state; the
/// result is `argc`.
pub open spec fn exec_ran(
    t0: TaskControlBlock,
    t1: TaskControlBlock,
    m1: PhysMem,
    image: Seq<u8>,
    argc: usize,
    r: isize,
    trampoline: u64,
    kernel_stack_top: usize,
    kernel: KernelInfo,
) -> bool {
    let sp = image_stack_top(image);
    &&& r == #[verifier::truncate] (argc as isize)
    &&& elf_space(t1.inner.memory_set, m1, image, sp as u64, e_entry(image) as u64, trampoline)
    &&& segments_loaded(t1.inner.memory_set, m1, image, e_phnum(image))
    &&& t1.pid == t0.pid
    &&& crate::trap::app_entry_context(
        t1.inner.trap_cx,
        #[verifier::truncate] (e_entry(image) as usize),
        #[verifier::truncate] (sp as usize),
        kernel.sstatus,
        kernel.kernel_satp,
        kernel_stack_top,
        kernel.trap_handler,
    )
    &&& t1.inner == (TaskControlBlockInner {
        memory_set: t1.inner.memory_set,
        trap_cx: t1.inner.trap_cx,
        base_size: #[verifier::truncate] (sp as usize),
        heap_bottom: #[verifier::truncate] (sp as usize),
        program_brk: #[verifier::truncate] (sp as usize),
        ..t0.inner
    })
}

/// The outcome of running the file `name` of `fs0` with `argc` arguments
/// in process `t0` with memory `m0`: `t1`, `m1` and result `r`. -1 with
/// nothing changed when no file has that name or its contents are not a
/// valid image; the image runs when it is loadable in the free frames of
/// `m0`; otherwise it runs, or -1 comes with the process unchanged.
pub open spec fn exec_done(
    t0: TaskControlBlock,
    t1: TaskControlBlock,
    m0: PhysMem,
    m1: PhysMem,
    fs0: FileSystem,
    name: Seq<u8>,
    argc: usize,
    r: isize,
    trampoline: u64,
    kernel_stack_top: usize,
    kernel: KernelInfo,
) -> bool {
    let image = file_image(fs0, name);
    &&& m1.wf()
    &&& t1.inner.memory_set.wf(&m1)
    &&& !has_name(fs0.slots(), name) ==> r == -1 && t1 == t0 && m1 == m0
    &&& has_name(fs0.slots(), name) && !valid_elf(image) ==> r == -1 && t1 == t0 && m1 == m0
    &&& has_name(fs0.slots(), name) && valid_elf(image) ==> (r == -1 && t1 == t0) || exec_ran(
        t0,
        t1,
        m1,
        image,
        argc,
        r,
        trampoline,
        kernel_stack_top,
        kernel,
    )
    &&& has_name(fs0.slots(), name) && elf_loadable(image, m0.free_count() as int) ==> exec_ran(
        t0,
        t1,
        m1,
        image,
        argc,
        r,
        trampoline,
        kernel_stack_top,
        kernel,
    )
}

/// Replace the calling process's program with the ELF image of the file
/// named by the NUL-terminated string at the caller's user address `path`
/// (see `exec_path`), given the argument vector at the caller's user
/// address `args`: its number of arguments becomes the result and the new
/// program's a0. -1, with nothing changed, when the name or the argument
/// vector cannot be loaded from user memory (see `load_user_str` and
/// `count_user_args`).
pub fn sys_exec(
    task: &mut TaskControlBlock,
    mem: &mut PhysMem,
    fs: &mut FileSystem,
    path: usize,
    args: usize,
    trampoline: PhysPageNum,
    kernel_stack_top: usize,
    kernel: KernelInfo,
) -> (r: isize)
    requires
        old(task).inner.memory_set.wf(old(mem)),
        old(fs).wf(),
        trampoline.0 < crate::address::PPN_LIMIT,
    ensures
        *final(fs) == *old(fs),
        final(task).inner.memory_set.wf(final(mem)),
        (forall|s: Seq<u8>| !#[trigger] user_string(old(task).inner.memory_set, *old(mem), path as int, s))
            ==> r == -1 && *final(task) == *old(task) && *final(mem) == *old(mem),
        (forall|n: nat| !#[trigger] user_argv(old(task).inner.memory_set, *old(mem), args as int, n)) ==> r
            == -1 && *final(task) == *old(task) && *final(mem) == *old(mem),
        forall|s: Seq<u8>, n: nat|
            user_string(old(task).inner.memory_set, *old(mem), path as int, s) && user_argv(
                old(task).inner.memory_set,
                *old(mem),
                args as int,
                n,
            ) ==> #[trigger] exec_done(
                *old(task),
                *final(task),
                *old(mem),
                *final(mem),
                *old(fs),
                s,
                n as usize,
                r,
                trampoline.0,
                kernel_stack_top,
                kernel,
            ),
{
    let name = match load_user_str(&task.inner.memory_set, mem, path as u64) {
        Some(s) => s,
        None => {
            return -1;
        },
    };
    let argc = match count_user_args(&task.inner.memory_set, mem, args as u64) {
        Some(n) => n,
        None => {
            proof {
                assert(!user_argv(task.inner.memory_set, *mem, args as int, 0));
            }
            return -1;
        },
    };
    let ghost t0 = *task;
    let ghost m0 = *mem;
    let r = exec_path(task, mem, fs, &name, argc as usize, trampoline, kernel_stack_top, kernel);
    proof {
        assert forall|s: Seq<u8>, n: nat|
            user_string(t0.inner.memory_set, m0, path as int, s) && user_argv(
                t0.inner.memory_set,
                m0,
                args as int,
                n,
            ) implies #[trigger] exec_done(
                t0,
                *task,
                m0,
                *mem,
                *old(fs),
                s,
                n as usize,
                r,
                trampoline.0,
                kernel_stack_top,
                kernel,
            ) by {
            lemma_user_string_unique(t0.inner.memory_set, m0, path as int, s, name@);
            lemma_user_argv_unique(t0.inner.memory_set, m0, args as int, n, argc as nat);
        }
    }
    r
}

/// Replace the calling process's program with the ELF image of the file
/// `path` of the root directory, with the trampoline in frame `trampoline`
/// (see `MemorySet::from_elf` and `TaskControlBlock::exec`), and return
/// `argc`, the number of arguments, which becomes the new program's a0. -1,
/// with the process unchanged, when no file has that name, its contents are
/// not a valid image, or frames run out.
pub fn exec_path(
    task: &mut TaskControlBlock,
    mem: &mut PhysMem,
    fs: &mut FileSystem,
    path: &Vec<u8>,
    argc: usize,
    trampoline: PhysPageNum,
    kernel_stack_top: usize,
    kernel: KernelInfo,
) -> (r: isize)
    requires
        old(task).inner.memory_set.wf(old(mem)),
        old(fs).wf(),
        trampoline.0 < crate::address::PPN_LIMIT,
    ensures
        *final(fs) == *old(fs),
        exec_done(
            *old(task),
            *final(task),
            *old(mem),
            *final(mem),
            *old(fs),
            path@,
            argc,
            r,
            trampoline.0,
            kernel_stack_top,
            kernel,
        ),
{
    proof {
        task.inner.memory_set.lemma_walks(mem, 0);
        assert(0u32 & 512u32 == 0u32) by (bit_vector);
        assert(0u32 & 1024u32 == 0u32) by (bit_vector);
    }
    let flags = OpenFlags::read_only();
    let mut file = match open_file(fs, path, flags) {
        Some(f) => f,
        None => {
            return -1;
        },
    };
    let data = file.read_all(fs);
    proof {
        let i = choose|i: int| #[trigger] first_match(fs.slots(), i, path@) && file.node().id == fs.slots()[i].1;
        let i2 = choose|i2: int| first_match(fs.slots(), i2, path@);
        lemma_first_match_unique(fs.slots(), i, i2, path@);
        let d = fs.data(fs.slots()[i].1 as int);
        if d.len() > 0 {
            assert(data@ =~= d);
        } else {
            assert(data@ =~= d);
        }
        assert(data@ == file_image(*fs, path@));
    }
    let ghost m0 = *mem;
    let (ms, sp, entry) = match MemorySet::from_elf(mem, &data, trampoline) {
        Some(t) => t,
        None => {
            proof {
                task.inner.memory_set.lemma_wf_kept_by(&m0, mem);
            }
            return -1;
        },
    };
    proof {
        task.inner.memory_set.lemma_wf_kept_by(&m0, mem);
    }
    let ghost m1 = *mem;
    let ghost ms1 = ms;
    let ghost old_space = task.inner.memory_set;
    task.exec(
        mem,
        ms,
        #[verifier::truncate] (sp as usize),
        #[verifier::truncate] (entry as usize),
        kernel_stack_top,
        kernel,
    );
    proof {
        assert(ms1.wf(&m1));
        assert forall|q: int| #[trigger] m1.is_allocated(q) && (frame_in_areas(ms1.areas(), 0, q) || ms1.table_frames().contains(q)) implies !(frame_in_areas(old_space.areas(), 0, q) || old_space.table_frames().contains(q)) by {
            if frame_in_areas(old_space.areas(), 0, q) || old_space.table_frames().contains(q) {
                old_space.lemma_own_frames_allocated(&m0, q);
                lemma_fresh_not_own(ms1, m1, m0, q);
            }
        }
        assert forall|q: int|
            0 <= q < m1.frame_count() && #[trigger] ms1.table_frames().contains(q) implies same_frame(
                m1.ptes(),
                mem.ptes(),
                q,
            ) by {
            ms1.lemma_own_frames_allocated(&m1, q);
            assert(!old_space.table_frames().contains(q));
        }
        assert forall|q: int|
            frame_in_areas(ms1.areas(), 0, q) || ms1.table_frames().contains(q) implies #[trigger] mem.is_allocated(q) by {
            ms1.lemma_own_frames_allocated(&m1, q);
        }
        ms1.lemma_wf_kept_own(&m1, mem);
        assert forall|q: int| frame_in_areas(ms1.areas(), 0, q) implies #[trigger] same_frame(
            m1.ptes(),
            mem.ptes(),
            q,
        ) by {
            ms1.lemma_own_frames_allocated(&m1, q);
            m1.lemma_allocated_in_range(q);
            assert(!old_space.table_frames().contains(q));
        }
        lemma_loaded_same_space(ms1, m1, *mem, data@, e_phnum(data@));
    }
    #[verifier::truncate] (argc as isize)
}

} // verus!
