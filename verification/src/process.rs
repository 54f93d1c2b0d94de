//! Process control blocks: scheduling attributes, the family tree, the
//! descriptor table, signal state and the program break.
//!
//! A parent owns its children; a child records its parent's PID. The trap
//! context of a process is held in its control block.
use vstd::prelude::*;
use crate::address::{VirtAddr, VA_LIMIT};
use crate::memory_set::{area_pages, in_areas, space_copied, TRAMPOLINE_VPN, ceil_page, first_area_at, floor_page, lemma_page_bounds, MemorySet};
use crate::page_table::{same_frame, PageTableEntry, PhysMem};
use crate::address::PhysPageNum;
use crate::signal::{SignalAction, SignalFlags, MAX_SIG};
use crate::task::{Processor, ReadyTask, TaskContext, TaskManager, TaskStatus};
use crate::trap::{app_entry_context, TrapContext};

verus! {

/// An open file as a descriptor table holds it: its access rights and the
/// open-file object it refers to.
#[derive(Copy, Clone, PartialEq, Eq, Structural)]
pub struct FileDesc {
    pub readable: bool,
    pub writable: bool,
    pub file: usize,
}

/// The mutable part of a process control block.
pub struct TaskControlBlockInner {
    /// The trap context, saved on each trap.
    pub trap_cx: TrapContext,
    /// Application data lies below this address.
    pub base_size: usize,
    /// The saved task context.
    pub task_cx: TaskContext,
    /// Execution status.
    pub task_status: TaskStatus,
    /// Accumulated scheduling stride.
    pub stride: usize,
    /// Scheduling priority, at least 2.
    pub prio: usize,
    /// The user address space.
    pub memory_set: MemorySet,
    /// The parent's PID, if any.
    pub parent: Option<usize>,
    /// The children, in the order they were created.
    pub children: Vec<TaskControlBlock>,
    /// Set on exit.
    pub exit_code: i32,
    /// Bottom of the heap.
    pub heap_bottom: usize,
    /// Program break.
    pub program_brk: usize,
    /// Open files by descriptor.
    pub fd_table: Vec<Option<FileDesc>>,
    /// Pending signals.
    pub signals: SignalFlags,
    /// Blocked signals.
    pub signal_mask: SignalFlags,
    /// The signal being handled, or -1.
    pub handling_sig: isize,
    /// The action of each signal number.
    pub signal_actions: Vec<SignalAction>,
    /// The trap context saved when a signal handler was entered.
    pub trap_ctx_backup: Option<TrapContext>,
}

/// A process control block.
pub struct TaskControlBlock {
    /// Process identifier.
    pub pid: usize,
    /// Mutable state.
    pub inner: TaskControlBlockInner,
}

/// Child `c` is one that `waitpid(pid)` asks for.
pub open spec fn child_matches(c: TaskControlBlock, pid: isize) -> bool {
    pid == -1 || #[verifier::truncate] (c.pid as isize) == pid
}

/// Child `c` is a zombie that `waitpid(pid)` asks for.
pub open spec fn reapable(c: TaskControlBlock, pid: isize) -> bool {
    child_matches(c, pid) && c.inner.task_status == TaskStatus::Zombie
}

impl TaskControlBlockInner {
    /// The execution status.
    fn get_status(&self) -> (r: TaskStatus)
        ensures
            r == self.task_status,
    {
        self.task_status
    }

    /// Whether the process has exited and awaits reaping.
    pub fn is_zombie(&self) -> (r: bool)
        ensures
            r == (self.task_status == TaskStatus::Zombie),
    {
        self.get_status() == TaskStatus::Zombie
    }

    /// The token of the user address space.
    pub fn get_user_token(&self) -> (r: u64)
        ensures
            r == crate::page_table::SATP_SV39 | (self.memory_set.root() as u64),
    {
        self.memory_set.token()
    }

    /// The lowest free descriptor, or a new one at the end of the table.
    pub fn alloc_fd(&mut self) -> (r: usize)
        requires
            old(self).fd_table@.len() < usize::MAX,
        ensures
            r <= old(self).fd_table@.len(),
            r < final(self).fd_table@.len(),
            final(self).fd_table@[r as int] is None,
            forall|k: int| 0 <= k < r ==> (#[trigger] old(self).fd_table@[k]) is Some,
            r < old(self).fd_table@.len() ==> final(self).fd_table@ == old(self).fd_table@,
            r == old(self).fd_table@.len() ==> final(self).fd_table@ == old(self).fd_table@.push(None),
            final(self).children@ == old(self).children@,
            final(self).memory_set == old(self).memory_set,
    {
        let mut i: usize = 0;
        while i < self.fd_table.len()
            invariant
                i <= self.fd_table@.len(),
                self.fd_table@ == old(self).fd_table@,
                self.children@ == old(self).children@,
                self.memory_set == old(self).memory_set,
                forall|k: int| 0 <= k < i ==> (#[trigger] self.fd_table@[k]) is Some,
            decreases self.fd_table@.len() - i,
        {
            if self.fd_table[i].is_none() {
                return i;
            }
            i = i + 1;
        }
        self.fd_table.push(None);
        i
    }
}

impl TaskControlBlock {
    /// The mutable state.
    pub fn inner_exclusive_access(&self) -> (r: &TaskControlBlockInner)
        ensures
            *r == self.inner,
    {
        &self.inner
    }

    /// The process identifier.
    pub fn getpid(&self) -> (r: usize)
        ensures
            r == self.pid,
    {
        self.pid
    }

    /// The token of the user address space.
    pub fn get_user_token(&self) -> (r: u64)
        ensures
            r == crate::page_table::SATP_SV39 | (self.inner.memory_set.root() as u64),
    {
        self.inner.get_user_token()
    }

    /// Set the priority to `prio` and return it; -1, with nothing changed,
    /// when `prio < 2`. The stride is kept.
    pub fn set_priority(&mut self, prio: isize) -> (r: isize)
        ensures
            prio < 2 ==> r == -1 && *final(self) == *old(self),
            prio >= 2 ==> r == prio && final(self).inner == (TaskControlBlockInner {
                prio: prio as usize,
                ..old(self).inner
            }),
            final(self).pid == old(self).pid,
    {
        if prio < 2 {
            return -1;
        }
        self.inner.prio = prio as usize;
        prio
    }

    /// Reap the first child in list order that matches `pid` (-1: any) and
    /// is a zombie, returning its PID and exit code. `Err(-1)` when no child
    /// matches, `Err(-2)` when some match but none is a zombie; the children
    /// are then unchanged.
    pub fn waitpid(&mut self, pid: isize) -> (r: Result<(usize, i32), isize>)
        ensures
            final(self).pid == old(self).pid,
            r == Err::<(usize, i32), isize>(-1isize) <==> forall|k: int|
                0 <= k < old(self).inner.children@.len() ==> !child_matches(
                    #[trigger] old(self).inner.children@[k],
                    pid,
                ),
            r == Err::<(usize, i32), isize>(-2isize) <==> (exists|k: int|
                0 <= k < old(self).inner.children@.len() && child_matches(
                    #[trigger] old(self).inner.children@[k],
                    pid,
                )) && forall|k: int|
                0 <= k < old(self).inner.children@.len() ==> !reapable(
                    #[trigger] old(self).inner.children@[k],
                    pid,
                ),
            r is Err ==> final(self).inner.children@ == old(self).inner.children@ && (r == Err::<
                (usize, i32),
                isize,
            >(-1isize) || r == Err::<(usize, i32), isize>(-2isize)),
            r matches Ok((p, code)) ==> exists|i: int|
                {
                    &&& 0 <= i < old(self).inner.children@.len()
                    &&& reapable(old(self).inner.children@[i], pid)
                    &&& forall|k: int|
                        0 <= k < i ==> !reapable(#[trigger] old(self).inner.children@[k], pid)
                    &&& p == old(self).inner.children@[i].pid
                    &&& code == old(self).inner.children@[i].inner.exit_code
                    &&& final(self).inner.children@ == old(self).inner.children@.remove(i)
                },
            final(self).inner.exit_code == old(self).inner.exit_code,
            final(self).inner.task_status == old(self).inner.task_status,
            final(self).inner.fd_table == old(self).inner.fd_table,
            final(self).inner.memory_set == old(self).inner.memory_set,
    {
        let n = self.inner.children.len();
        let mut any = false;
        let mut i: usize = 0;
        while i < n
            invariant
                n == self.inner.children@.len(),
                i <= n,
                any <==> exists|k: int| 0 <= k < i && child_matches(#[trigger] self.inner.children@[k], pid),
            decreases n - i,
        {
            if pid == -1 || #[verifier::truncate] (self.inner.children[i].pid as isize) == pid {
                any = true;
            }
            proof {
                if child_matches(self.inner.children@[i as int], pid) {
                    assert(child_matches(self.inner.children@[i as int], pid));
                } else {
                    assert forall|k: int| 0 <= k < i + 1 && child_matches(#[trigger] self.inner.children@[k], pid) implies k < i by {}
                }
            }
            i = i + 1;
        }
        if !any {
            return Err(-1);
        }
        let mut j: usize = 0;
        let mut found = false;
        while j < n && !found
            invariant
                n == self.inner.children@.len(),
                j <= n,
                found ==> j < n && reapable(self.inner.children@[j as int], pid),
                forall|k: int| 0 <= k < j ==> !reapable(#[trigger] self.inner.children@[k], pid),
            decreases n - j, if found { 0int } else { 1int },
        {
            if (pid == -1 || #[verifier::truncate] (self.inner.children[j].pid as isize) == pid)
                && self.inner.children[j].inner.is_zombie() {
                found = true;
            } else {
                j = j + 1;
            }
        }
        if !found {
            return Err(-2);
        }
        let child = self.inner.children.remove(j);
        Ok((child.pid, child.inner.exit_code))
    }
}

/// The first page of a heap whose bottom is `heap_bottom`.
pub open spec fn heap_start(heap_bottom: usize) -> int {
    floor_page(VirtAddr(heap_bottom as u64))
}

/// The page after the last page of a heap whose break is `brk`.
pub open spec fn heap_end(brk: int) -> int {
    ceil_page(VirtAddr(brk as u64))
}

impl TaskControlBlock {
    /// The heap area, the first area that starts at the heap bottom's page,
    /// ends at the program break's page.
    pub open spec fn heap_consistent(&self) -> bool {
        let areas = self.inner.memory_set.areas();
        forall|i: int|
            #[trigger] first_area_at(areas, i, heap_start(self.inner.heap_bottom)) ==> areas[i].end()
                == heap_end(self.inner.program_brk as int)
    }

    /// The process has a heap area: an area that starts at the heap
    /// bottom's page.
    pub open spec fn has_heap_area(&self) -> bool {
        exists|i: int|
            #[trigger] first_area_at(self.inner.memory_set.areas(), i, heap_start(self.inner.heap_bottom))
    }

    /// Move the program break by `size` bytes and return the old break.
    /// `None`, with nothing changed, when the new break would fall below the
    /// heap bottom; `None` also when the process has no heap area or frames
    /// run out on growth. Shrinking unmaps the pages beyond the new break;
    /// growth maps the added pages to new frames.
    #[verifier::spinoff_prover]
    pub fn change_program_brk(&mut self, mem: &mut PhysMem, size: i32) -> (r: Option<usize>)
        requires
            old(self).inner.memory_set.wf(old(mem)),
            old(self).heap_consistent(),
            old(self).inner.heap_bottom <= isize::MAX,
            old(self).inner.program_brk + i32::MAX <= isize::MAX,
            size >= 0 ==> old(self).inner.program_brk + size <= VA_LIMIT,
            size >= 0 ==> forall|p: int|
                heap_end(old(self).inner.program_brk as int) <= p < heap_end(
                    old(self).inner.program_brk + size,
                ) ==> !#[trigger] old(self).inner.memory_set.mapped(old(mem)).contains_key(p),
        ensures
            final(self).inner.memory_set.wf(final(mem)),
            final(self).heap_consistent(),
            final(self).pid == old(self).pid,
            final(self).inner.heap_bottom == old(self).inner.heap_bottom,
            final(self).inner.children == old(self).inner.children,
            final(self).inner.fd_table == old(self).inner.fd_table,
            final(self).inner.memory_set.root() == old(self).inner.memory_set.root(),
            old(self).inner.program_brk + size < old(self).inner.heap_bottom ==> r is None
                && *final(self) == *old(self) && *final(mem) == *old(mem),
            old(self).inner.program_brk + size >= old(self).inner.heap_bottom && size < 0 ==> (r is Some
                <==> old(self).has_heap_area()),
            r is Some ==> old(self).has_heap_area(),
            old(self).inner.program_brk + size >= old(self).inner.heap_bottom && size >= 0
                && old(self).has_heap_area() && old(mem).free_count() >= 3 * (heap_end(
                old(self).inner.program_brk + size,
            ) - heap_end(old(self).inner.program_brk as int)) ==> r is Some,
            r is Some && size >= 0 ==> old(mem).free_count() >= heap_end(old(self).inner.program_brk + size)
                - heap_end(old(self).inner.program_brk as int),
            r is None ==> final(self).inner.program_brk == old(self).inner.program_brk
                && final(self).inner.memory_set.areas() == old(self).inner.memory_set.areas()
                && final(self).inner.memory_set.mapped(final(mem)) == old(self).inner.memory_set.mapped(
                old(mem),
            ),
            r is Some ==> r == Some(old(self).inner.program_brk) && final(self).inner.program_brk
                == old(self).inner.program_brk + size,
            r is Some ==> forall|p: int|
                #[trigger] final(self).inner.memory_set.mapped(final(mem)).contains_key(p) == ((old(
                    self,
                ).inner.memory_set.mapped(old(mem)).contains_key(p) && !(heap_end(
                    old(self).inner.program_brk + size,
                ) <= p < heap_end(old(self).inner.program_brk as int))) || (heap_end(
                    old(self).inner.program_brk as int,
                ) <= p < heap_end(old(self).inner.program_brk + size))),
            forall|p: int|
                #[trigger] final(self).inner.memory_set.mapped(final(mem)).contains_key(p) && old(
                    self,
                ).inner.memory_set.mapped(old(mem)).contains_key(p) ==> final(self).inner.memory_set.mapped(
                    final(mem),
                )[p] == old(self).inner.memory_set.mapped(old(mem))[p],
    {
        let heap_bottom = self.inner.heap_bottom;
        let old_break = self.inner.program_brk;
        let new_brk: isize = old_break as isize + size as isize;
        if new_brk < heap_bottom as isize {
            return None;
        }
        let ghost s = floor_page(VirtAddr(heap_bottom as u64));
        let ghost areas = self.inner.memory_set.areas();
        proof {
            lemma_page_bounds(VirtAddr(heap_bottom as u64), VirtAddr(new_brk as u64));
            if size < 0 {
                lemma_page_bounds(VirtAddr(new_brk as u64), VirtAddr(old_break as u64));
            } else {
                lemma_page_bounds(VirtAddr(old_break as u64), VirtAddr(new_brk as u64));
            }
        }
        proof {
            let hs = floor_page(VirtAddr(heap_bottom as u64));
            assert(new_brk as int == old_break + size);
            assert forall|i: int| first_area_at(areas, i, hs) implies areas[i].end() == ceil_page(VirtAddr(old_break as u64)) by {
                assert(old(self).heap_consistent());
                assert(areas == old(self).inner.memory_set.areas());
                assert(hs == heap_start(old(self).inner.heap_bottom));
                assert(first_area_at(old(self).inner.memory_set.areas(), i, heap_start(old(self).inner.heap_bottom)));
                assert(old(self).inner.memory_set.areas()[i].end() == heap_end(old(self).inner.program_brk as int));
                assert(heap_end(old(self).inner.program_brk as int) == ceil_page(VirtAddr(old_break as u64)));
            }
        }
        let result = if size < 0 {
            self.inner.memory_set.shrink_to(mem, VirtAddr(heap_bottom as u64), VirtAddr(new_brk as u64))
        } else {
            self.inner.memory_set.append_to(mem, VirtAddr(heap_bottom as u64), VirtAddr(new_brk as u64))
        };
        proof {
            let hs = floor_page(VirtAddr(heap_bottom as u64));
            if exists|i: int| first_area_at(areas, i, hs) {
                let i = choose|i: int| first_area_at(areas, i, hs);
                assert(first_area_at(areas, i, heap_start(heap_bottom)));
            }
            if exists|i: int| first_area_at(areas, i, heap_start(heap_bottom)) {
                let i = choose|i: int| first_area_at(areas, i, heap_start(heap_bottom));
                assert(first_area_at(areas, i, hs));
            }
        }
        if result {
            self.inner.program_brk = new_brk as usize;
            proof {
                let new_areas = self.inner.memory_set.areas();
                assert forall|i: int| #[trigger] first_area_at(new_areas, i, s) implies new_areas[i].end()
                    == ceil_page(VirtAddr(new_brk as u64)) by {
                    let j = choose|j: int| #[trigger] first_area_at(areas, j, s) && new_areas.len() == areas.len()
                        && new_areas[j].start() == areas[j].start() && new_areas[j].end() == ceil_page(
                        VirtAddr(new_brk as u64),
                    ) && forall|a: int| 0 <= a < areas.len() && a != j ==> #[trigger] new_areas[a] == areas[a];
                    if i < j {
                        assert(new_areas[i] == areas[i]);
                    } else if j < i {
                        assert(new_areas[j] == areas[j]);
                    }
                }
            }
            Some(old_break)
        } else {
            None
        }
    }
}

/// The open-file object of standard input.
pub const STDIN_FILE: usize = 0;
/// The open-file object of standard output.
pub const STDOUT_FILE: usize = 1;

/// The priority of a new process.
pub const DEFAULT_PRIO: usize = 16;

/// What the kernel hands every new process: the kernel address space's
/// token, the addresses of the trap handler and of the trap-return entry,
/// and the current `sstatus`.
#[derive(Copy, Clone, PartialEq, Eq, Structural)]
pub struct KernelInfo {
    pub kernel_satp: usize,
    pub trap_handler: usize,
    pub trap_return: usize,
    pub sstatus: usize,
}

/// The descriptor table of a new process: standard input, then standard
/// output twice.
pub open spec fn initial_fd_table() -> Seq<Option<FileDesc>> {
    seq![
        Some(FileDesc { readable: true, writable: false, file: STDIN_FILE }),
        Some(FileDesc { readable: false, writable: true, file: STDOUT_FILE }),
        Some(FileDesc { readable: false, writable: true, file: STDOUT_FILE }),
    ]
}

/// The default action for every signal number.
pub open spec fn default_actions(v: Seq<SignalAction>) -> bool {
    &&& v.len() == MAX_SIG + 1
    &&& forall|k: int|
        0 <= k < v.len() ==> (#[trigger] v[k]).handler == 0 && v[k].mask.value() == (
        SignalFlags::SIGQUIT | SignalFlags::SIGTRAP)
}

/// A copy of `v`.
fn copy_vec<T: Copy>(v: &Vec<T>) -> (r: Vec<T>)
    ensures
        r@ == v@,
{
    let mut r: Vec<T> = Vec::new();
    let mut i: usize = 0;
    while i < v.len()
        invariant
            i <= v@.len(),
            r@ == v@.take(i as int),
        decreases v@.len() - i,
    {
        r.push(v[i]);
        i = i + 1;
        proof {
            assert(r@ =~= v@.take(i as int));
        }
    }
    proof {
        assert(v@.take(v@.len() as int) =~= v@);
    }
    r
}

impl TaskControlBlock {
    /// A ready process with a PID that was not in use, taken from `pids`,
    /// and address space `memory_set`, about to enter
    /// the application at `entry_point` with its user stack at `user_sp`,
    /// and kernel stack top `kernel_stack_top`. The heap is empty at the
    /// stack top; there is no parent or child, exit code 0, stride 0 and the
    /// default priority; standard input and output are open; every signal
    /// has the default action and none is pending or blocked.
    pub fn new(
        pids: &mut PidAllocator,
        memory_set: MemorySet,
        user_sp: usize,
        entry_point: usize,
        kernel_stack_top: usize,
        kernel: KernelInfo,
    ) -> (r: Self)
        requires
            old(pids).wf(),
            old(pids).next_unused() < usize::MAX,
        ensures
            final(pids).wf(),
            !old(pids).in_use(r.pid as int),
            final(pids).in_use(r.pid as int),
            forall|p: int| p != r.pid ==> #[trigger] final(pids).in_use(p) == old(pids).in_use(p),
            r.inner.memory_set == memory_set,
            app_entry_context(
                r.inner.trap_cx,
                entry_point,
                user_sp,
                kernel.sstatus,
                kernel.kernel_satp,
                kernel_stack_top,
                kernel.trap_handler,
            ),
            r.inner.task_cx.ra() == kernel.trap_return,
            r.inner.task_cx.sp() == kernel_stack_top,
            r.inner.task_status == TaskStatus::Ready,
            r.inner.base_size == user_sp,
            r.inner.heap_bottom == user_sp,
            r.inner.program_brk == user_sp,
            r.inner.stride == 0,
            r.inner.prio == DEFAULT_PRIO,
            r.inner.parent is None,
            r.inner.children@.len() == 0,
            r.inner.exit_code == 0,
            r.inner.fd_table@ == initial_fd_table(),
            r.inner.signals.value() == 0,
            r.inner.signal_mask.value() == 0,
            r.inner.handling_sig == -1,
            default_actions(r.inner.signal_actions@),
            r.inner.trap_ctx_backup is None,
    {
        let pid = pids.pid_alloc();
        let trap_cx = TrapContext::app_init_context(
            entry_point,
            user_sp,
            kernel.sstatus,
            kernel.kernel_satp,
            kernel_stack_top,
            kernel.trap_handler,
        );
        let mut fd_table: Vec<Option<FileDesc>> = Vec::new();
        fd_table.push(Some(FileDesc { readable: true, writable: false, file: STDIN_FILE }));
        fd_table.push(Some(FileDesc { readable: false, writable: true, file: STDOUT_FILE }));
        fd_table.push(Some(FileDesc { readable: false, writable: true, file: STDOUT_FILE }));
        let mut signal_actions: Vec<SignalAction> = Vec::new();
        let mut k: usize = 0;
        while k <= MAX_SIG
            invariant
                k <= MAX_SIG + 1,
                signal_actions@.len() == k,
                forall|j: int|
                    0 <= j < k ==> (#[trigger] signal_actions@[j]).handler == 0
                        && signal_actions@[j].mask.value() == (SignalFlags::SIGQUIT
                        | SignalFlags::SIGTRAP),
            decreases MAX_SIG + 1 - k,
        {
            signal_actions.push(SignalAction::default_action());
            k = k + 1;
        }
        proof {
            assert(fd_table@ =~= initial_fd_table());
        }
        TaskControlBlock {
            pid,
            inner: TaskControlBlockInner {
                trap_cx,
                base_size: user_sp,
                task_cx: TaskContext::goto_trap_return(kernel_stack_top, kernel.trap_return),
                task_status: TaskStatus::Ready,
                stride: 0,
                prio: DEFAULT_PRIO,
                memory_set,
                parent: None,
                children: Vec::new(),
                exit_code: 0,
                heap_bottom: user_sp,
                program_brk: user_sp,
                fd_table,
                signals: SignalFlags::empty(),
                signal_mask: SignalFlags::empty(),
                handling_sig: -1,
                signal_actions,
                trap_ctx_backup: None,
            },
        }
    }
}

/// PID of the initial process, which adopts the children of every process
/// that exits.
pub const IDLE_PID: usize = 0;

/// Process `c` with its parent link set to `ppid`.
pub open spec fn reparented(c: TaskControlBlock, ppid: usize) -> TaskControlBlock {
    TaskControlBlock { pid: c.pid, inner: TaskControlBlockInner { parent: Some(ppid), ..c.inner } }
}

impl TaskControlBlock {
    /// Make `child` a child of this process, last in the list, and return
    /// its PID.
    pub fn spawn(&mut self, child: TaskControlBlock) -> (r: usize)
        ensures
            r == child.pid,
            final(self).inner.children@ == old(self).inner.children@.push(reparented(child, old(self).pid)),
            final(self).pid == old(self).pid,
            final(self).inner.memory_set == old(self).inner.memory_set,
            final(self).inner.fd_table == old(self).inner.fd_table,
            final(self).inner.task_status == old(self).inner.task_status,
    {
        let mut child = child;
        child.inner.parent = Some(self.pid);
        let pid = child.pid;
        self.inner.children.push(child);
        pid
    }

    /// Create a child, with a PID that was not in use, taken from `pids`, an
    /// address space that copies this process's, page by page, with the
    /// trampoline in frame `trampoline`, and kernel stack top
    /// `kernel_stack_top`, as the last child; return its PID. `None`, with
    /// the process and the identifiers unchanged, when frames run out. The child resumes from a copy of the trap
    /// context on its own kernel stack, and inherits the heap, the open
    /// files, the signal mask and the signal actions; it starts ready, with
    /// no child, exit code 0, stride 0 and the default priority.
    pub fn fork(
        &mut self,
        pids: &mut PidAllocator,
        mem: &mut PhysMem,
        trampoline: PhysPageNum,
        kernel_stack_top: usize,
        kernel: KernelInfo,
    ) -> (r: Option<usize>)
        requires
            old(pids).wf(),
            old(pids).next_unused() < usize::MAX,
            old(self).inner.memory_set.wf(old(mem)),
            trampoline.0 < crate::address::PPN_LIMIT,
        ensures
            final(mem).wf(),
            final(mem).frame_count() == old(mem).frame_count(),
            final(self).inner.memory_set.wf(final(mem)),
            final(self).inner.memory_set.mapped(final(mem)) == old(self).inner.memory_set.mapped(old(mem)),
            forall|q: int| #[trigger] old(mem).is_allocated(q) ==> final(mem).is_allocated(q),
            forall|q: int|
                0 <= q < old(mem).frame_count() && old(mem).is_allocated(q) ==> #[trigger] same_frame(
                    old(mem).ptes(),
                    final(mem).ptes(),
                    q,
                ),
            r is None ==> *final(self) == *old(self) && *final(pids) == *old(pids),
            old(mem).free_count() >= 3 + 3 * area_pages(old(self).inner.memory_set.areas()) && !in_areas(
                old(self).inner.memory_set.areas(),
                0,
                TRAMPOLINE_VPN as int,
            ) ==> r is Some,
            final(pids).wf(),
            r matches Some(pid) ==> !old(pids).in_use(pid as int) && final(pids).in_use(pid as int)
                && forall|p: int| p != pid ==> #[trigger] final(pids).in_use(p) == old(pids).in_use(p),
            final(self).pid == old(self).pid,
            r is Some ==> final(self).inner.children@.len() == old(self).inner.children@.len() + 1,
            r is Some ==> final(self).inner.children@.take(old(self).inner.children@.len() as int)
                == old(self).inner.children@,
            final(self).inner == (TaskControlBlockInner {
                children: final(self).inner.children,
                ..old(self).inner
            }),
            r is Some ==> space_copied(
                old(self).inner.memory_set,
                *old(mem),
                final(self).inner.children@.last().inner.memory_set,
                *final(mem),
                trampoline.0,
            ),
            r is Some ==>             ({
                let c = final(self).inner.children@.last();
                let p = old(self).inner;
                &&& r == Some(c.pid)
                &&& c.inner.trap_cx == (TrapContext { kernel_sp: kernel_stack_top, ..p.trap_cx })
                &&& c.inner.task_cx.ra() == kernel.trap_return
                &&& c.inner.task_cx.sp() == kernel_stack_top
                &&& c.inner.task_status == TaskStatus::Ready
                &&& c.inner.base_size == p.base_size
                &&& c.inner.heap_bottom == p.heap_bottom
                &&& c.inner.program_brk == p.program_brk
                &&& c.inner.stride == 0
                &&& c.inner.prio == DEFAULT_PRIO
                &&& c.inner.parent == Some(old(self).pid)
                &&& c.inner.children@.len() == 0
                &&& c.inner.exit_code == 0
                &&& c.inner.fd_table@ == p.fd_table@
                &&& c.inner.signals.value() == 0
                &&& c.inner.signal_mask == p.signal_mask
                &&& c.inner.handling_sig == -1
                &&& c.inner.signal_actions@ == p.signal_actions@
                &&& c.inner.trap_ctx_backup is None
            }),
    {
        let memory_set = match MemorySet::from_existed_user(&self.inner.memory_set, mem, trampoline) {
            Some(ms) => ms,
            None => {
                return None;
            },
        };
        let child_pid = pids.pid_alloc();
        let mut trap_cx = self.inner.trap_cx;
        trap_cx.kernel_sp = kernel_stack_top;
        let child = TaskControlBlock {
            pid: child_pid,
            inner: TaskControlBlockInner {
                trap_cx,
                base_size: self.inner.base_size,
                task_cx: TaskContext::goto_trap_return(kernel_stack_top, kernel.trap_return),
                task_status: TaskStatus::Ready,
                stride: 0,
                prio: DEFAULT_PRIO,
                memory_set,
                parent: Some(self.pid),
                children: Vec::new(),
                exit_code: 0,
                heap_bottom: self.inner.heap_bottom,
                program_brk: self.inner.program_brk,
                fd_table: copy_vec(&self.inner.fd_table),
                signals: SignalFlags::empty(),
                signal_mask: self.inner.signal_mask,
                handling_sig: -1,
                signal_actions: copy_vec(&self.inner.signal_actions),
                trap_ctx_backup: None,
            },
        };
        let ghost before = self.inner.children@;
        self.inner.children.push(child);
        proof {
            assert(self.inner.children@.take(before.len() as int) =~= before);
        }
        Some(child_pid)
    }

    /// Replace the application: every frame of the old address space is
    /// returned, `memory_set` takes its place, and the trap context is
    /// set to enter the new application at `entry_point` with its user stack
    /// at `user_sp`. The heap becomes empty at the stack top; the PID,
    /// family, status, exit code, stride and priority are kept.
    pub fn exec(
        &mut self,
        mem: &mut PhysMem,
        memory_set: MemorySet,
        user_sp: usize,
        entry_point: usize,
        kernel_stack_top: usize,
        kernel: KernelInfo,
    )
        requires
            old(self).inner.memory_set.wf(old(mem)),
        ensures
            final(self).pid == old(self).pid,
            final(self).inner.memory_set == memory_set,
            app_entry_context(
                final(self).inner.trap_cx,
                entry_point,
                user_sp,
                kernel.sstatus,
                kernel.kernel_satp,
                kernel_stack_top,
                kernel.trap_handler,
            ),
            final(self).inner == (TaskControlBlockInner {
                memory_set: memory_set,
                trap_cx: final(self).inner.trap_cx,
                base_size: user_sp,
                heap_bottom: user_sp,
                program_brk: user_sp,
                ..old(self).inner
            }),
            final(mem).wf(),
            final(mem).frame_count() == old(mem).frame_count(),
            forall|q: int|
                #[trigger] final(mem).is_allocated(q) == (old(mem).is_allocated(q)
                    && !crate::memory_set::frame_in_areas(old(self).inner.memory_set.areas(), 0, q)
                    && !old(self).inner.memory_set.table_frames().contains(q)),
            forall|q: int|
                0 <= q < old(mem).frame_count() && !old(self).inner.memory_set.table_frames().contains(q)
                    ==> #[trigger] same_frame(old(mem).ptes(), final(mem).ptes(), q),
    {
        let mut old_space = memory_set;
        std::mem::swap(&mut old_space, &mut self.inner.memory_set);
        old_space.release(mem);
        self.inner.base_size = user_sp;
        self.inner.heap_bottom = user_sp;
        self.inner.program_brk = user_sp;
        self.inner.trap_cx = TrapContext::app_init_context(
            entry_point,
            user_sp,
            kernel.sstatus,
            kernel.kernel_satp,
            kernel_stack_top,
            kernel.trap_handler,
        );
    }
}

/// Terminate `task` with `exit_code`: it becomes a zombie that its parent
/// reaps, its data pages are returned, and its children move, in order, to
/// the end of `initproc`'s children with their parent links updated.
#[verifier::spinoff_prover]
pub fn exit_current(task: &mut TaskControlBlock, initproc: &mut TaskControlBlock, mem: &mut PhysMem, exit_code: i32)
    requires
        old(task).pid != IDLE_PID,
        old(initproc).pid == IDLE_PID,
        old(task).inner.memory_set.wf(old(mem)),
    ensures
        final(task).pid == old(task).pid,
        final(task).inner.task_status == TaskStatus::Zombie,
        final(task).inner.exit_code == exit_code,
        final(task).inner.children@.len() == 0,
        final(task).inner.parent == old(task).inner.parent,
        final(task).inner.memory_set.wf(final(mem)),
        final(task).inner.memory_set.areas().len() == 0,
        forall|q: int|
            #[trigger] final(mem).is_allocated(q) == (old(mem).is_allocated(q)
                && !crate::memory_set::frame_in_areas(old(task).inner.memory_set.areas(), 0, q)),
        final(initproc).pid == old(initproc).pid,
        final(initproc).inner.memory_set == old(initproc).inner.memory_set,
        final(initproc).inner.task_status == old(initproc).inner.task_status,
        final(initproc).inner.children@ == old(initproc).inner.children@ + Seq::new(
            old(task).inner.children@.len(),
            |k: int| reparented(old(task).inner.children@[k], IDLE_PID),
        ),
{
    task.inner.task_status = TaskStatus::Zombie;
    task.inner.exit_code = exit_code;
    let mut kids: Vec<TaskControlBlock> = Vec::new();
    std::mem::swap(&mut kids, &mut task.inner.children);
    let ghost orig = kids@;
    let ghost init0 = initproc.inner.children@;
    let n0 = kids.len();
    let mut i: usize = 0;
    while kids.len() > 0
        invariant
            orig.len() == n0,
            i <= orig.len(),
            kids@ == orig.skip(i as int),
            initproc.pid == IDLE_PID,
            initproc.pid == old(initproc).pid,
            initproc.inner.memory_set == old(initproc).inner.memory_set,
            initproc.inner.task_status == old(initproc).inner.task_status,
            init0 == old(initproc).inner.children@,
            initproc.inner.children@ == init0 + Seq::new(i as nat, |k: int| reparented(orig[k], IDLE_PID)),
        decreases kids@.len(),
    {
        let mut child = kids.remove(0);
        let ghost c0 = child;
        child.inner.parent = Some(initproc.pid);
        proof {
            assert(c0 == orig[i as int]);
            assert(child == reparented(c0, IDLE_PID));
        }
        initproc.inner.children.push(child);
        i = i + 1;
        proof {
            assert(kids@ =~= orig.skip(i as int));
            assert(initproc.inner.children@ =~= init0 + Seq::new(i as nat, |k: int| reparented(orig[k], IDLE_PID)));
        }
    }
    proof {
        assert(i == orig.len());
    }
    task.inner.memory_set.recycle_data_pages(mem);
}

/// Suspend the running `task`: it becomes ready and joins the back of the
/// ready queue with its stride and priority.
pub fn suspend_current(task: &mut TaskControlBlock, manager: &mut TaskManager)
    ensures
        final(task).inner.task_status == TaskStatus::Ready,
        final(task).pid == old(task).pid,
        final(task).inner.stride == old(task).inner.stride,
        final(task).inner.prio == old(task).inner.prio,
        final(task).inner.memory_set == old(task).inner.memory_set,
        final(task).inner.children == old(task).inner.children,
        final(task).inner.trap_cx == old(task).inner.trap_cx,
        final(manager).queue() == old(manager).queue().push(
            ReadyTask { pid: old(task).pid, stride: old(task).inner.stride, prio: old(task).inner.prio },
        ),
{
    task.inner.task_status = TaskStatus::Ready;
    manager.add(ReadyTask { pid: task.pid, stride: task.inner.stride, prio: task.inner.prio });
}

/// Run `task`, the process that the scheduler picked as `picked`: it takes
/// on the stride that the pick charged, becomes running, and is installed as
/// the processor's current process.
pub fn dispatch(task: &mut TaskControlBlock, picked: ReadyTask, processor: &mut Processor)
    requires
        old(task).pid == picked.pid,
    ensures
        final(task).pid == old(task).pid,
        final(task).inner == (TaskControlBlockInner {
            stride: picked.stride,
            task_status: TaskStatus::Running,
            ..old(task).inner
        }),
        final(processor).running() == Some(picked.pid),
{
    task.inner.stride = picked.stride;
    task.inner.task_status = TaskStatus::Running;
    processor.set_current(picked.pid);
}

/// Hands out process identifiers: a returned one first, most recent
/// first, and otherwise the next never-used one.
pub struct PidAllocator {
    current: usize,
    recycled: Vec<usize>,
}

impl PidAllocator {
    /// Identifier `pid` is handed out and not returned.
    pub closed spec fn in_use(&self, pid: int) -> bool {
        0 <= pid < self.current && !self.recycled@.contains(pid as usize)
    }

    /// Identifiers never handed out start here.
    pub closed spec fn next_unused(&self) -> int {
        self.current as int
    }

    /// The allocator's invariant: returned identifiers were handed out, and
    /// each is returned once.
    pub closed spec fn wf(&self) -> bool {
        &&& self.recycled@.no_duplicates()
        &&& forall|k: int| 0 <= k < self.recycled@.len() ==> #[trigger] self.recycled@[k] < self.current
    }

    /// An allocator with no identifier in use.
    pub fn new() -> (r: Self)
        ensures
            r.wf(),
            forall|p: int| !#[trigger] r.in_use(p),
            r.next_unused() == 0,
    {
        PidAllocator { current: 0, recycled: Vec::new() }
    }

    /// Hand out an identifier that is not in use; every other identifier
    /// keeps its state.
    pub fn pid_alloc(&mut self) -> (r: usize)
        requires
            old(self).wf(),
            old(self).next_unused() < usize::MAX,
        ensures
            final(self).wf(),
            !old(self).in_use(r as int),
            final(self).in_use(r as int),
            forall|p: int| p != r ==> #[trigger] final(self).in_use(p) == old(self).in_use(p),
    {
        match self.recycled.pop() {
            Some(pid) => {
                proof {
                    let rec = old(self).recycled@;
                    assert(rec.last() == pid);
                    assert(self.recycled@ =~= rec.drop_last());
                    assert(!self.recycled@.contains(pid)) by {
                        if self.recycled@.contains(pid) {
                            let w = self.recycled@.index_of(pid);
                            assert(rec[w] == rec[rec.len() - 1]);
                        }
                    }
                    assert(rec.contains(pid)) by {
                        assert(rec[rec.len() - 1] == pid);
                    }
                    assert forall|p: int| p != pid implies #[trigger] self.in_use(p) == old(self).in_use(p) by {
                        if 0 <= p < self.current {
                            if rec.contains(p as usize) {
                                let w = rec.index_of(p as usize);
                                assert(w != rec.len() - 1);
                                assert(self.recycled@[w] == p as usize);
                            }
                            if self.recycled@.contains(p as usize) {
                                let w = self.recycled@.index_of(p as usize);
                                assert(rec[w] == p as usize);
                            }
                        }
                    }
                }
                pid
            },
            None => {
                let pid = self.current;
                self.current = self.current + 1;
                proof {
                    assert(self.recycled@.len() == 0);
                    assert(!self.recycled@.contains(pid));
                }
                pid
            },
        }
    }

    /// Take back identifier `pid`, which is in use; every other identifier
    /// keeps its state.
    pub fn pid_dealloc(&mut self, pid: usize)
        requires
            old(self).wf(),
            old(self).in_use(pid as int),
        ensures
            final(self).wf(),
            !final(self).in_use(pid as int),
            final(self).next_unused() == old(self).next_unused(),
            forall|p: int| p != pid ==> #[trigger] final(self).in_use(p) == old(self).in_use(p),
    {
        let ghost rec = self.recycled@;
        self.recycled.push(pid);
        proof {
            assert(self.recycled@ =~= rec.push(pid));
            assert(self.recycled@[rec.len() as int] == pid);
            assert forall|p: int| p != pid implies #[trigger] self.in_use(p) == old(self).in_use(p) by {
                if 0 <= p < self.current {
                    if rec.contains(p as usize) {
                        let w = rec.index_of(p as usize);
                        assert(self.recycled@[w] == p as usize);
                    }
                    if self.recycled@.contains(p as usize) {
                        let w = self.recycled@.index_of(p as usize);
                        assert(w < rec.len());
                        assert(rec[w] == p as usize);
                    }
                }
            }
        }
    }
}

} // verus!
