use rcore_os::address::{PhysPageNum, VirtAddr, VirtPageNum};
use rcore_os::memory_set::{MapPermission, MemorySet};
use rcore_os::page_table::PhysMem;
use rcore_os::process::{PidAllocator, exit_current, suspend_current, KernelInfo, TaskControlBlock, DEFAULT_PRIO};
use rcore_os::task::{TaskManager, TaskStatus};

const HEAP: u64 = 0x10000;

fn kernel() -> KernelInfo {
    KernelInfo { kernel_satp: 7, trap_handler: 0x100, trap_return: 0x200, sstatus: 0x122 }
}

fn user_rw() -> MapPermission {
    MapPermission::from_bits(MapPermission::R | MapPermission::W | MapPermission::U).unwrap()
}

/// An allocator whose next identifier is `next`.
fn pids_from(next: usize) -> PidAllocator {
    let mut pids = PidAllocator::new();
    for _ in 0..next {
        pids.pid_alloc();
    }
    pids
}

fn new_task(mem: &mut PhysMem, pid: usize) -> TaskControlBlock {
    let mut ms = MemorySet::new_bare(mem);
    assert!(ms.insert_framed_area(mem, VirtAddr(HEAP), VirtAddr(HEAP), user_rw()).is_some());
    TaskControlBlock::new(&mut pids_from(pid), ms, HEAP as usize, 0x1000, 0x9000, kernel())
}

fn mapped(task: &TaskControlBlock, mem: &PhysMem, vpn: u64) -> bool {
    task.inner.memory_set.translate(mem, VirtPageNum(vpn)).map_or(false, |e| e.is_valid())
}

#[test]
fn new_process_starts_ready_with_defaults() {
    let mut mem = PhysMem::new(64);
    let t = new_task(&mut mem, 1);
    assert_eq!(t.getpid(), 1);
    let inner = t.inner_exclusive_access();
    assert!(inner.task_status == TaskStatus::Ready);
    assert_eq!((inner.stride, inner.prio), (0, DEFAULT_PRIO));
    assert_eq!((inner.heap_bottom, inner.program_brk, inner.base_size), (0x10000, 0x10000, 0x10000));
    assert_eq!(inner.trap_cx.sepc, 0x1000);
    assert_eq!(inner.trap_cx.x[2], 0x10000);
    assert_eq!(inner.trap_cx.kernel_sp, 0x9000);
    assert_eq!(inner.trap_cx.sstatus, 0x22);
    assert_eq!(inner.fd_table.len(), 3);
    assert_eq!(inner.signal_actions.len(), 32);
    assert!(inner.parent.is_none() && inner.children.is_empty());
    assert!(!inner.is_zombie());
}

#[test]
fn set_priority_rejects_below_two() {
    let mut mem = PhysMem::new(64);
    let mut t = new_task(&mut mem, 1);
    assert_eq!(t.set_priority(1), -1);
    assert_eq!(t.inner.prio, DEFAULT_PRIO);
    assert_eq!(t.set_priority(2), 2);
    assert_eq!(t.inner.prio, 2);
}

#[test]
fn waitpid_reaps_first_matching_zombie_once() {
    let mut mem = PhysMem::new(256);
    let mut parent = new_task(&mut mem, 1);
    assert_eq!(parent.waitpid(-1), Err(-1));
    let mut pids = pids_from(2);
    assert_eq!(parent.fork(&mut pids, &mut mem, PhysPageNum(250), 0xa000, kernel()), Some(2));
    assert_eq!(parent.fork(&mut pids, &mut mem, PhysPageNum(250), 0xb000, kernel()), Some(3));
    assert_eq!(parent.waitpid(2), Err(-2));
    assert_eq!(parent.waitpid(9), Err(-1));
    parent.inner.children[1].inner.task_status = TaskStatus::Zombie;
    parent.inner.children[1].inner.exit_code = 7;
    assert_eq!(parent.waitpid(2), Err(-2));
    assert_eq!(parent.waitpid(-1), Ok((3, 7)));
    assert_eq!(parent.waitpid(3), Err(-1));
    assert_eq!(parent.inner.children.len(), 1);
}

#[test]
fn fork_copies_context_onto_child_kernel_stack() {
    let mut mem = PhysMem::new(256);
    let mut parent = new_task(&mut mem, 1);
    parent.inner.trap_cx.x[10] = 42;
    assert_eq!(parent.change_program_brk(&mut mem, 4096), Some(0x10000));
    assert!(parent.fork(&mut pids_from(5), &mut mem, PhysPageNum(250), 0xc000, kernel()).is_some());
    let child = &parent.inner.children[0];
    assert_eq!(child.pid, 5);
    assert_eq!(child.inner.parent, Some(1));
    assert_eq!(child.inner.trap_cx.x[10], 42);
    assert_eq!(child.inner.trap_cx.kernel_sp, 0xc000);
    assert_eq!(child.inner.trap_cx.sepc, parent.inner.trap_cx.sepc);
    assert_eq!((child.inner.stride, child.inner.prio), (0, DEFAULT_PRIO));
    assert_eq!(child.inner.fd_table.len(), 3);
    let heap = VirtPageNum(0x10);
    let pe = parent.inner.memory_set.translate(&mem, heap).unwrap();
    let ce = child.inner.memory_set.translate(&mem, heap).unwrap();
    assert!(ce.is_valid() && ce.writable());
    assert_ne!(pe.ppn().0, ce.ppn().0);
    let tramp = child.inner.memory_set.translate(&mem, VirtPageNum(0x7ff_ffff)).unwrap();
    assert_eq!(tramp.ppn().0, 250);
}

#[test]
fn fork_fails_cleanly_without_frames() {
    let mut mem = PhysMem::new(3);
    let mut parent = new_task(&mut mem, 1);
    let mut pids = pids_from(2);
    assert_eq!(parent.fork(&mut pids, &mut mem, PhysPageNum(2), 0xa000, kernel()), None);
    assert!(parent.inner.children.is_empty());
    assert_eq!(pids.pid_alloc(), 2);
}

#[test]
fn program_break_grows_and_shrinks() {
    let mut mem = PhysMem::new(256);
    let mut t = new_task(&mut mem, 1);
    assert_eq!(t.change_program_brk(&mut mem, 8192), Some(0x10000));
    assert_eq!(t.inner.program_brk, 0x12000);
    assert!(mapped(&t, &mem, 0x10) && mapped(&t, &mem, 0x11));
    assert!(!mapped(&t, &mem, 0x12));
    assert_eq!(t.change_program_brk(&mut mem, 100), Some(0x12000));
    assert!(mapped(&t, &mem, 0x12));
    assert_eq!(t.change_program_brk(&mut mem, -(8192 + 100)), Some(0x12064));
    assert_eq!(t.inner.program_brk, 0x10000);
    assert!(!mapped(&t, &mem, 0x10));
    assert_eq!(t.change_program_brk(&mut mem, -1), None);
    assert_eq!(t.inner.program_brk, 0x10000);
}

#[test]
fn exiting_process_hands_children_to_init() {
    let mut mem = PhysMem::new(256);
    let mut init = new_task(&mut mem, 0);
    let mut t = new_task(&mut mem, 1);
    assert!(t.fork(&mut pids_from(4), &mut mem, PhysPageNum(250), 0xd000, kernel()).is_some());
    assert_eq!(t.change_program_brk(&mut mem, 4096), Some(0x10000));
    exit_current(&mut t, &mut init, &mut mem, -3);
    assert!(t.inner.is_zombie());
    assert_eq!(t.inner.exit_code, -3);
    assert!(t.inner.children.is_empty());
    assert!(!mapped(&t, &mem, 0x10));
    assert_eq!(init.inner.children.len(), 1);
    assert_eq!(init.inner.children[0].pid, 4);
    assert_eq!(init.inner.children[0].inner.parent, Some(0));
}

#[test]
fn suspended_process_joins_back_of_ready_queue() {
    let mut mem = PhysMem::new(64);
    let mut t = new_task(&mut mem, 6);
    t.inner.task_status = TaskStatus::Running;
    t.inner.stride = 100;
    let mut manager = TaskManager::new();
    suspend_current(&mut t, &mut manager);
    assert!(t.inner.task_status == TaskStatus::Ready);
    let next = manager.fetch().unwrap();
    assert_eq!(next.pid, 6);
    assert_eq!(next.stride, 100 + 65536 / DEFAULT_PRIO);
}

#[test]
fn exec_replaces_program_and_resets_heap() {
    let mut mem = PhysMem::new(256);
    let mut t = new_task(&mut mem, 1);
    assert_eq!(t.change_program_brk(&mut mem, 4096), Some(0x10000));
    let ms = MemorySet::new_bare(&mut mem);
    t.exec(&mut mem, ms, 0x20000, 0x3000, 0x9000, kernel());
    assert_eq!(t.pid, 1);
    assert_eq!((t.inner.heap_bottom, t.inner.program_brk), (0x20000, 0x20000));
    assert_eq!(t.inner.trap_cx.sepc, 0x3000);
    assert_eq!(t.inner.trap_cx.x[2], 0x20000);
    assert!(!mapped(&t, &mem, 0x10));
}

#[test]
fn pid_allocator_reuses_returned_identifiers_first() {
    let mut pids = PidAllocator::new();
    assert_eq!(pids.pid_alloc(), 0);
    assert_eq!(pids.pid_alloc(), 1);
    assert_eq!(pids.pid_alloc(), 2);
    pids.pid_dealloc(1);
    assert_eq!(pids.pid_alloc(), 1);
    assert_eq!(pids.pid_alloc(), 3);
}

#[test]
fn dispatch_installs_charged_stride() {
    let mut mem = PhysMem::new(64);
    let mut t = new_task(&mut mem, 6);
    let mut manager = TaskManager::new();
    let mut processor = rcore_os::task::Processor::new();
    suspend_current(&mut t, &mut manager);
    let picked = manager.fetch().unwrap();
    rcore_os::process::dispatch(&mut t, picked, &mut processor);
    assert_eq!(t.inner.stride, 65536 / DEFAULT_PRIO);
    assert!(t.inner.task_status == TaskStatus::Running);
    assert_eq!(processor.current(), Some(6));
    suspend_current(&mut t, &mut manager);
    let picked = manager.fetch().unwrap();
    assert_eq!(picked.stride, 2 * (65536 / DEFAULT_PRIO));
}
