use rcore_os::laws::law_store_then_load;
use rcore_os::address::{PhysPageNum, VirtAddr};
use rcore_os::fs::{FileSystem, Inode, OpenFlags};
use rcore_os::memory_set::{MapPermission, MemorySet};
use rcore_os::page_table::PhysMem;
use rcore_os::process::{PidAllocator, FileDesc, KernelInfo, TaskControlBlock, STDOUT_FILE};
use rcore_os::signal::{SignalAction, SignalFlags};
use rcore_os::syscall::fs::{
    sys_close, sys_fstat, sys_linkat, sys_open, sys_read, sys_unlinkat, sys_write, OpenFile, Transfer,
};
use rcore_os::pipe::{make_pipe, PipeProgress, PipeRingBuffer};
use rcore_os::syscall::process::{
    exec_path, spawn_path, sys_exec, sys_fork, sys_get_time, sys_getpid, sys_kill, sys_mmap, sys_munmap, sys_sbrk,
    sys_set_priority, sys_sigaction, sys_sigprocmask, sys_sigreturn, sys_spawn, sys_waitpid,
    sys_yield,
};
use rcore_os::syscall::{syscall, SyscallRequest, SYSCALL_EXIT, SYSCALL_WRITE};
use rcore_os::task::{TaskManager, TaskStatus};

const HEAP: u64 = 0x10000;

fn kernel() -> KernelInfo {
    KernelInfo { kernel_satp: 7, trap_handler: 0x100, trap_return: 0x200, sstatus: 0x122 }
}

/// An allocator whose next identifier is `next`.
fn pids_from(next: usize) -> PidAllocator {
    let mut pids = PidAllocator::new();
    for _ in 0..next {
        pids.pid_alloc();
    }
    pids
}

fn new_task(mem: &mut PhysMem, pid: usize) -> TaskControlBlock {
    let mut ms = MemorySet::new_bare(mem);
    let perm = MapPermission::from_bits(MapPermission::R | MapPermission::W | MapPermission::U).unwrap();
    assert!(ms.insert_framed_area(mem, VirtAddr(HEAP), VirtAddr(HEAP), perm).is_some());
    TaskControlBlock::new(&mut pids_from(pid), ms, HEAP as usize, 0x1000, 0x9000, kernel())
}

#[test]
fn dispatch_decodes_write_exit_and_unknown() {
    assert!(syscall(SYSCALL_WRITE, [1, 0x2000, 5]) == SyscallRequest::Write { fd: 1, buf: 0x2000, len: 5 });
    assert!(syscall(SYSCALL_EXIT, [usize::MAX, 9, 9]) == SyscallRequest::Exit { code: -1 });
    assert!(syscall(1234, [0, 0, 0]) == SyscallRequest::Unsupported { id: 1234 });
}

#[test]
fn close_frees_descriptor_once() {
    let mut mem = PhysMem::new(64);
    let mut t = new_task(&mut mem, 1);
    assert_eq!(sys_close(&mut t, 9), -1);
    assert_eq!(sys_close(&mut t, 1), 0);
    assert!(t.inner.fd_table[1].is_none());
    assert_eq!(sys_close(&mut t, 1), -1);
}

#[test]
fn open_uses_lowest_free_descriptor() {
    let mut mem = PhysMem::new(64);
    let mut t = new_task(&mut mem, 1);
    let mut fs = FileSystem::new();
    let name = b"notes".to_vec();
    let (fd, file) = sys_open(&mut t, &mut fs, &name, OpenFlags::from_bits(0).unwrap(), 10);
    assert_eq!(fd, -1);
    assert!(file.is_none());
    let flags = OpenFlags::from_bits(OpenFlags::CREATE | OpenFlags::WRONLY).unwrap();
    let (fd, file) = sys_open(&mut t, &mut fs, &name, flags, 10);
    assert_eq!(fd, 3);
    assert!(file.is_some());
    assert!(t.inner.fd_table[3] == Some(FileDesc { readable: false, writable: true, file: 10 }));
    assert_eq!(sys_close(&mut t, 1), 0);
    let (fd, _) = sys_open(&mut t, &mut fs, &name, OpenFlags::from_bits(0).unwrap(), 11);
    assert_eq!(fd, 1);
    assert!(t.inner.fd_table[1] == Some(FileDesc { readable: true, writable: false, file: 11 }));
}

#[test]
fn write_and_read_check_descriptor_rights() {
    let mut mem = PhysMem::new(64);
    let mut t = new_task(&mut mem, 1);
    let mut fs = FileSystem::new();
    let mut files: Vec<Option<OpenFile>> = Vec::new();
    let mut rings: Vec<PipeRingBuffer> = Vec::new();
    assert_eq!(sys_mmap(&mut t, &mut mem, 0x2000, 0x1000, 3), 0);
    assert!(matches!(sys_write(&t, &mem, &mut fs, &mut files, &mut rings, 7, 0x2000, 4, 0), Transfer::Done(-1)));
    assert!(matches!(sys_write(&t, &mem, &mut fs, &mut files, &mut rings, 0, 0x2000, 4, 0), Transfer::Done(-1)));
    assert!(matches!(sys_read(&t, &mut mem, &fs, &mut files, &mut rings, 1, 0x2000, 4, 0), Transfer::Done(-1)));
    match sys_write(&t, &mem, &mut fs, &mut files, &mut rings, 1, 0x2ffe, 2, 0) {
        Transfer::Pieces(desc, segs) => {
            assert!(desc == FileDesc { readable: false, writable: true, file: STDOUT_FILE });
            assert_eq!(segs.len(), 1);
            assert_eq!((segs[0].offset, segs[0].len), (0xffe, 2));
        },
        _ => panic!("the console is left to the caller"),
    }
    match sys_read(&t, &mut mem, &fs, &mut files, &mut rings, 0, 0x2000, 4, 0) {
        Transfer::Pieces(desc, _) => assert!(desc.readable),
        _ => panic!("the console is left to the caller"),
    }
}

#[test]
fn write_and_read_move_bytes_of_regular_files() {
    let mut mem = PhysMem::new(64);
    let mut t = new_task(&mut mem, 1);
    let mut fs = FileSystem::new();
    let name = b"notes".to_vec();
    let flags = OpenFlags::from_bits(OpenFlags::CREATE | OpenFlags::WRONLY).unwrap();
    let (wfd, writer) = sys_open(&mut t, &mut fs, &name, flags, 3);
    let mut files: Vec<Option<OpenFile>> = vec![None, None, None, writer.map(OpenFile::Regular)];
    let mut rings: Vec<PipeRingBuffer> = Vec::new();
    assert_eq!(sys_mmap(&mut t, &mut mem, 0x2000, 0x1000, 3), 0);
    t.inner.memory_set.write_user_bytes(&mut mem, 0x2000, &b"hello".to_vec());
    let w = wfd as usize;
    assert!(matches!(sys_write(&t, &mem, &mut fs, &mut files, &mut rings, w, 0x2000, 5, 0), Transfer::Done(5)));
    assert!(matches!(sys_write(&t, &mem, &mut fs, &mut files, &mut rings, w, 0x2001, 2, 0), Transfer::Done(2)));
    match files[3] {
        Some(OpenFile::Regular(f)) => assert_eq!(f.offset(), 7),
        _ => panic!("the file stays open"),
    }
    let (rfd, reader) = sys_open(&mut t, &mut fs, &name, OpenFlags::from_bits(0).unwrap(), 4);
    files.push(reader.map(OpenFile::Regular));
    let r = rfd as usize;
    assert!(matches!(sys_read(&t, &mut mem, &fs, &mut files, &mut rings, r, 0x2100, 16, 0), Transfer::Done(7)));
    assert_eq!(t.inner.memory_set.read_user_bytes(&mem, 0x2100, 8), b"helloel\0".to_vec());
    assert!(matches!(sys_read(&t, &mut mem, &fs, &mut files, &mut rings, r, 0x2100, 16, 0), Transfer::Done(0)));
    assert!(matches!(sys_read(&t, &mut mem, &fs, &mut files, &mut rings, w, 0x2100, 16, 0), Transfer::Done(-1)));
}

#[test]
fn write_and_read_step_through_pipes() {
    let mut mem = PhysMem::new(64);
    let mut t = new_task(&mut mem, 1);
    let mut fs = FileSystem::new();
    let (read_end, write_end, ring) = make_pipe();
    let mut rings = vec![ring];
    let mut files: Vec<Option<OpenFile>> =
        vec![None, None, None, Some(OpenFile::PipeEnd(read_end, 0)), Some(OpenFile::PipeEnd(write_end, 0))];
    t.inner.fd_table.push(Some(FileDesc { readable: true, writable: false, file: 3 }));
    t.inner.fd_table.push(Some(FileDesc { readable: false, writable: true, file: 4 }));
    assert_eq!(sys_mmap(&mut t, &mut mem, 0x2000, 0x1000, 3), 0);
    let data: Vec<u8> = (1..=40u8).collect();
    t.inner.memory_set.write_user_bytes(&mut mem, 0x2000, &data);
    assert!(matches!(
        sys_write(&t, &mem, &mut fs, &mut files, &mut rings, 4, 0x2000, 40, 0),
        Transfer::Step(PipeProgress::Wait(32))
    ));
    assert!(matches!(
        sys_read(&t, &mut mem, &fs, &mut files, &mut rings, 3, 0x2800, 40, 0),
        Transfer::Step(PipeProgress::Wait(32))
    ));
    assert!(matches!(
        sys_write(&t, &mem, &mut fs, &mut files, &mut rings, 4, 0x2000, 40, 32),
        Transfer::Step(PipeProgress::Done(40))
    ));
    assert!(matches!(
        sys_read(&t, &mut mem, &fs, &mut files, &mut rings, 3, 0x2800, 40, 32),
        Transfer::Step(PipeProgress::Done(40))
    ));
    assert_eq!(t.inner.memory_set.read_user_bytes(&mem, 0x2800, 40), data);
    assert!(matches!(
        sys_read(&t, &mut mem, &fs, &mut files, &mut rings, 4, 0x2800, 40, 0),
        Transfer::Done(-1)
    ));
    rings[0].drop_write_end();
    assert!(matches!(
        sys_read(&t, &mut mem, &fs, &mut files, &mut rings, 3, 0x2800, 8, 0),
        Transfer::Step(PipeProgress::Done(0))
    ));
}

#[test]
fn link_and_unlink_through_system_calls() {
    let mut fs = FileSystem::new();
    let root = Inode::root();
    let a = b"a".to_vec();
    let b = b"b".to_vec();
    assert!(root.create(&mut fs, &a).is_some());
    assert_eq!(sys_linkat(&mut fs, &a, &b), 0);
    assert_eq!(sys_linkat(&mut fs, &a, &b), -1);
    assert_eq!(sys_linkat(&mut fs, &b"zz".to_vec(), &b"c".to_vec()), -1);
    assert_eq!(sys_linkat(&mut fs, &a, &b"..".to_vec()), -1);
    assert_eq!(sys_unlinkat(&mut fs, &a), 0);
    assert_eq!(sys_unlinkat(&mut fs, &a), -1);
    assert!(root.find(&fs, &b).is_some());
}

#[test]
fn kill_marks_signal_pending_once() {
    let mut mem = PhysMem::new(64);
    let mut t = new_task(&mut mem, 1);
    assert_eq!(sys_kill(&mut t, 10), 0);
    assert_eq!(t.inner.signals.bits(), 1 << 10);
    assert_eq!(sys_kill(&mut t, 10), -1);
    assert_eq!(sys_kill(&mut t, 2), 0);
    assert_eq!(t.inner.signals.bits(), (1 << 10) | (1 << 2));
}

#[test]
fn sigprocmask_returns_previous_mask() {
    let mut mem = PhysMem::new(64);
    let mut t = new_task(&mut mem, 1);
    assert_eq!(sys_sigprocmask(&mut t, 0x30), 0);
    assert_eq!(sys_sigprocmask(&mut t, 0x1), 0x30);
    assert_eq!(t.inner.signal_mask.bits(), 0x1);
}

#[test]
fn sigaction_refuses_bad_requests() {
    let mut mem = PhysMem::new(64);
    let mut t = new_task(&mut mem, 1);
    assert_eq!(sys_mmap(&mut t, &mut mem, 0x3000, 0x1000, 3), 0);
    let mut raw = vec![0u8; 16];
    raw[0..8].copy_from_slice(&0x4000u64.to_le_bytes());
    raw[8..12].copy_from_slice(&4u32.to_le_bytes());
    t.inner.memory_set.write_user_bytes(&mut mem, 0x3000, &raw);
    assert_eq!(sys_sigaction(&mut t, &mut mem, 9, 0x3000, 0x3100), -1);
    assert_eq!(sys_sigaction(&mut t, &mut mem, 19, 0x3000, 0x3100), -1);
    assert_eq!(sys_sigaction(&mut t, &mut mem, 32, 0x3000, 0x3100), -1);
    assert_eq!(sys_sigaction(&mut t, &mut mem, -1, 0x3000, 0x3100), -1);
    assert_eq!(sys_sigaction(&mut t, &mut mem, 2, 0, 0x3100), -1);
    assert_eq!(sys_sigaction(&mut t, &mut mem, 2, 0x3000, 0), -1);
    assert_eq!(sys_sigaction(&mut t, &mut mem, 2, 0x5000, 0x3100), -1);
    assert_eq!(sys_sigaction(&mut t, &mut mem, 2, 0x3000, 0x5000), -1);
    assert_eq!(t.inner.memory_set.read_user_bytes(&mem, 0x3100, 16), vec![0u8; 16]);
    assert_eq!(sys_sigaction(&mut t, &mut mem, 2, 0x3000, 0x3100), 0);
    let mut prev = vec![0u8; 16];
    prev[8..12].copy_from_slice(&(SignalFlags::SIGQUIT | SignalFlags::SIGTRAP).to_le_bytes());
    assert_eq!(t.inner.memory_set.read_user_bytes(&mem, 0x3100, 16), prev);
    let act = SignalAction { handler: 0x4000, mask: SignalFlags::from_bits(4).unwrap() };
    assert!(t.inner.signal_actions[2] == act);
    assert_eq!(sys_sigaction(&mut t, &mut mem, 2, 0x3000, 0x3100), 0);
    assert_eq!(t.inner.memory_set.read_user_bytes(&mem, 0x3100, 16), raw);
}

#[test]
fn sigreturn_restores_saved_context() {
    let mut mem = PhysMem::new(64);
    let mut t = new_task(&mut mem, 1);
    let mut saved = t.inner.trap_cx;
    saved.x[10] = 99;
    saved.sepc = 0x7777;
    t.inner.trap_ctx_backup = Some(saved);
    t.inner.handling_sig = 3;
    assert_eq!(sys_sigreturn(&mut t), 99);
    assert_eq!(t.inner.handling_sig, -1);
    assert_eq!(t.inner.trap_cx.sepc, 0x7777);
}

#[test]
fn mmap_checks_arguments() {
    let mut mem = PhysMem::new(64);
    let mut t = new_task(&mut mem, 1);
    assert_eq!(sys_mmap(&mut t, &mut mem, 0x2001, 0x1000, 3), -1);
    assert_eq!(sys_mmap(&mut t, &mut mem, 0x2000, 0x1000, 0), -1);
    assert_eq!(sys_mmap(&mut t, &mut mem, 0x2000, 0x1000, 8), -1);
    assert_eq!(sys_mmap(&mut t, &mut mem, 0x2000, 0, 3), 0);
    assert_eq!(sys_mmap(&mut t, &mut mem, usize::MAX - 0xfff, 0x1000, 3), -1);
    assert_eq!(sys_mmap(&mut t, &mut mem, 0x40_0000_0000, 0x1000, 3), -1);
    assert_eq!(sys_mmap(&mut t, &mut mem, 0x2000, 0x1800, 3), 0);
    assert_eq!(sys_mmap(&mut t, &mut mem, 0x3000, 0x1000, 1), -1);
    assert_eq!(sys_munmap(&mut t, &mut mem, 0x2000, 0x1000), -1);
    assert_eq!(sys_munmap(&mut t, &mut mem, 0x2001, 0x2000), -1);
    assert_eq!(sys_munmap(&mut t, &mut mem, 0x2000, 0), 0);
    assert_eq!(sys_munmap(&mut t, &mut mem, 0x2000, 0x2000), 0);
    assert_eq!(sys_munmap(&mut t, &mut mem, 0x2000, 0x2000), -1);
}

#[test]
fn get_time_checks_destination_pages() {
    let mut mem = PhysMem::new(64);
    let mut t = new_task(&mut mem, 1);
    assert_eq!(sys_get_time(&t, &mut mem, 0x2000, 3_500_000), -1);
    assert_eq!(sys_mmap(&mut t, &mut mem, 0x2000, 0x1000, 1), 0);
    assert_eq!(sys_get_time(&t, &mut mem, 0x2000, 3_500_000), -1);
    assert_eq!(sys_mmap(&mut t, &mut mem, 0x3000, 0x1000, 3), 0);
    assert_eq!(sys_get_time(&t, &mut mem, 0x3ff8, 3_500_000), -1);
    assert_eq!(t.inner.memory_set.read_user_bytes(&mem, 0x3ff8, 8), vec![0u8; 8]);
    assert_eq!(sys_get_time(&t, &mut mem, 0x3004, 3_500_000), 0);
    assert_eq!(
        t.inner.memory_set.read_user_bytes(&mem, 0x3000, 24),
        vec![0, 0, 0, 0, 3, 0, 0, 0, 0, 0, 0, 0, 0x20, 0xa1, 0x07, 0, 0, 0, 0, 0, 0, 0, 0, 0]
    );
    assert_eq!(sys_get_time(&t, &mut mem, usize::MAX - 3, 0), -1);
}

#[test]
fn fstat_needs_open_descriptor_and_metadata() {
    let mut mem = PhysMem::new(64);
    let mut t = new_task(&mut mem, 1);
    let mut fs = FileSystem::new();
    let name = b"f".to_vec();
    let flags = OpenFlags::from_bits(OpenFlags::CREATE).unwrap();
    let (fd, file) = sys_open(&mut t, &mut fs, &name, flags, 3);
    let files: Vec<Option<OpenFile>> = vec![None, None, None, file.map(OpenFile::Regular)];
    assert_eq!(sys_mmap(&mut t, &mut mem, 0x5000, 0x1000, 3), 0);
    assert_eq!(sys_fstat(&t, &mut mem, &fs, &files, 9, 0x5000), -1);
    assert_eq!(sys_fstat(&t, &mut mem, &fs, &files, 1, 0x5000), -1);
    assert_eq!(sys_fstat(&t, &mut mem, &fs, &files, fd as usize, 0x5fc0), -1);
    assert_eq!(t.inner.memory_set.read_user_bytes(&mem, 0x5fc0, 64), vec![0u8; 64]);
    assert_eq!(sys_fstat(&t, &mut mem, &fs, &files, fd as usize, 0x5000), 0);
    let mut expected = vec![0u8; 80];
    expected[8] = 1;
    expected[17] = 0x80;
    expected[20] = 1;
    assert_eq!(t.inner.memory_set.read_user_bytes(&mem, 0x5000, 80), expected);
}

#[test]
fn process_calls_getpid_yield_fork_waitpid() {
    let mut mem = PhysMem::new(256);
    let mut t = new_task(&mut mem, 4);
    let mut manager = TaskManager::new();
    assert_eq!(sys_getpid(&t), 4);
    assert_eq!(sys_mmap(&mut t, &mut mem, 0x3000, 0x1000, 3), 0);
    assert_eq!(sys_waitpid(&mut t, &mut mem, -1, 0x3000), -1);
    t.inner.trap_cx.x[10] = 17;
    assert_eq!(
        sys_fork(&mut t, &mut manager, &mut pids_from(8), &mut mem, PhysPageNum(250), 0xe000, kernel()),
        8
    );
    assert_eq!(t.inner.children[0].inner.trap_cx.x[10], 0);
    assert_eq!(t.inner.trap_cx.x[10], 17);
    assert_eq!(sys_waitpid(&mut t, &mut mem, 8, 0x3000), -2);
    assert_eq!(t.inner.memory_set.read_user_bytes(&mem, 0x3000, 4), vec![0u8; 4]);
    t.inner.children[0].inner.task_status = TaskStatus::Zombie;
    t.inner.children[0].inner.exit_code = -3;
    assert_eq!(sys_waitpid(&mut t, &mut mem, 8, 0x3000), 8);
    assert_eq!(t.inner.memory_set.read_user_bytes(&mem, 0x3000, 4), vec![0xfd, 0xff, 0xff, 0xff]);
    assert!(t.inner.children.is_empty());
    assert_eq!(sys_yield(&mut t, &mut manager), 0);
    assert_eq!(manager.fetch().unwrap().pid, 8);
    assert_eq!(manager.fetch().unwrap().pid, 4);
    assert!(manager.fetch().is_none());
}

#[test]
fn spawn_sbrk_set_priority_and_exec() {
    let mut mem = PhysMem::new(256);
    let mut t = new_task(&mut mem, 1);
    let mut manager = TaskManager::new();
    let mut fs = FileSystem::new();
    let app = b"app".to_vec();
    let mut pids = pids_from(5);
    assert_eq!(
        spawn_path(&mut t, &mut manager, &mut pids, &mut mem, &mut fs, &app, PhysPageNum(250), 0xa000, kernel()),
        -1
    );
    let file = Inode::root().create(&mut fs, &app).unwrap();
    let image = tiny_elf();
    assert_eq!(file.write_at(&mut fs, 0, &image), image.len());
    assert_eq!(
        spawn_path(&mut t, &mut manager, &mut pids, &mut mem, &mut fs, &app, PhysPageNum(250), 0xa000, kernel()),
        5
    );
    let child = &t.inner.children[0];
    assert_eq!(child.inner.parent, Some(1));
    assert_eq!(child.inner.trap_cx.sepc, 0x1000);
    assert_eq!(child.inner.trap_cx.x[2], 0x6000);
    assert_eq!(child.inner.memory_set.read_user_bytes(&mem, 0x1000, 0x78), image[0..0x78].to_vec());
    assert_eq!(child.inner.memory_set.read_user_bytes(&mem, 0x1078, 0x10), vec![0u8; 0x10]);
    assert_eq!(manager.fetch().unwrap().pid, 5);
    assert_eq!(sys_sbrk(&mut t, &mut mem, 4096), 0x10000);
    assert_eq!(sys_sbrk(&mut t, &mut mem, -8192), -1);
    assert_eq!(sys_sbrk(&mut t, &mut mem, 0), 0x11000);
    assert_eq!(sys_set_priority(&mut t, 0), -1);
    assert_eq!(sys_set_priority(&mut t, 3), 3);
    let other = b"other".to_vec();
    assert_eq!(exec_path(&mut t, &mut mem, &mut fs, &other, 2, PhysPageNum(250), 0x9000, kernel()), -1);
    file.clear(&mut fs);
    assert_eq!(file.write_at(&mut fs, 0, &b"not an image".to_vec()), 12);
    assert_eq!(exec_path(&mut t, &mut mem, &mut fs, &app, 2, PhysPageNum(250), 0x9000, kernel()), -1);
    file.clear(&mut fs);
    assert_eq!(file.write_at(&mut fs, 0, &image), image.len());
    assert_eq!(exec_path(&mut t, &mut mem, &mut fs, &app, 2, PhysPageNum(250), 0x9000, kernel()), 2);
    assert_eq!(t.inner.memory_set.read_user_bytes(&mem, 0x1000, 0x78), image[0..0x78].to_vec());
    assert_eq!(t.inner.memory_set.read_user_bytes(&mem, 0x27f8, 8), vec![0u8; 8]);
    assert_eq!(t.inner.trap_cx.sepc, 0x1000);
    assert_eq!(t.inner.trap_cx.x[2], 0x6000);
    assert_eq!(t.inner.program_brk, 0x6000);
}

fn put(buf: &mut Vec<u8>, off: usize, value: u64, n: usize) {
    for k in 0..n {
        buf[off + k] = (value >> (8 * k)) as u8;
    }
}

fn tiny_elf() -> Vec<u8> {
    let mut elf = vec![0u8; 64 + 56 + 16];
    elf[0..6].copy_from_slice(&[0x7f, b'E', b'L', b'F', 2, 1]);
    put(&mut elf, 24, 0x1000, 8);
    put(&mut elf, 32, 64, 8);
    put(&mut elf, 54, 56, 2);
    put(&mut elf, 56, 1, 2);
    put(&mut elf, 64, 1, 4);
    put(&mut elf, 68, 5, 4);
    put(&mut elf, 80, 0x1000, 8);
    put(&mut elf, 96, 0x78, 8);
    put(&mut elf, 104, 0x1800, 8);
    elf
}

/// Lay out in user memory, from `0x3000`: the name "app" with its NUL, and
/// from `0x3100` an argument vector of two strings, "x" and "yz".
fn put_exec_request(t: &mut TaskControlBlock, mem: &mut PhysMem) {
    let mut page = vec![0u8; 0x200];
    page[0..3].copy_from_slice(b"app");
    page[0x10] = b'x';
    page[0x20..0x22].copy_from_slice(b"yz");
    page[0x100..0x108].copy_from_slice(&0x3010u64.to_le_bytes());
    page[0x108..0x110].copy_from_slice(&0x3020u64.to_le_bytes());
    t.inner.memory_set.write_user_bytes(mem, 0x3000, &page);
}

#[test]
fn exec_reads_name_and_arguments_from_user_memory() {
    let mut mem = PhysMem::new(256);
    let mut t = new_task(&mut mem, 1);
    let mut fs = FileSystem::new();
    let file = Inode::root().create(&mut fs, &b"app".to_vec()).unwrap();
    let image = tiny_elf();
    assert_eq!(file.write_at(&mut fs, 0, &image), image.len());
    assert_eq!(sys_mmap(&mut t, &mut mem, 0x3000, 0x1000, 3), 0);
    put_exec_request(&mut t, &mut mem);
    assert_eq!(sys_exec(&mut t, &mut mem, &mut fs, 0x5000, 0x3100, PhysPageNum(250), 0x9000, kernel()), -1);
    assert_eq!(sys_exec(&mut t, &mut mem, &mut fs, 0x3000, 0x5000, PhysPageNum(250), 0x9000, kernel()), -1);
    assert_eq!(sys_exec(&mut t, &mut mem, &mut fs, 0x3010, 0x3100, PhysPageNum(250), 0x9000, kernel()), -1);
    assert_eq!(sys_exec(&mut t, &mut mem, &mut fs, 0x3000, 0x3100, PhysPageNum(250), 0x9000, kernel()), 2);
    assert_eq!(t.inner.trap_cx.x[2], 0x6000);
    assert_eq!(t.inner.memory_set.read_user_bytes(&mem, 0x1000, 0x78), image[0..0x78].to_vec());
}

#[test]
fn spawn_reads_name_from_user_memory() {
    let mut mem = PhysMem::new(256);
    let mut t = new_task(&mut mem, 1);
    let mut manager = TaskManager::new();
    let mut pids = pids_from(7);
    let mut fs = FileSystem::new();
    let file = Inode::root().create(&mut fs, &b"app".to_vec()).unwrap();
    let image = tiny_elf();
    assert_eq!(file.write_at(&mut fs, 0, &image), image.len());
    assert_eq!(sys_mmap(&mut t, &mut mem, 0x3000, 0x1000, 3), 0);
    put_exec_request(&mut t, &mut mem);
    assert_eq!(
        sys_spawn(&mut t, &mut manager, &mut pids, &mut mem, &mut fs, 0x5000, PhysPageNum(250), 0xa000, kernel()),
        -1
    );
    assert_eq!(
        sys_spawn(&mut t, &mut manager, &mut pids, &mut mem, &mut fs, 0x3020, PhysPageNum(250), 0xa000, kernel()),
        -1
    );
    assert!(t.inner.children.is_empty());
    assert_eq!(
        sys_spawn(&mut t, &mut manager, &mut pids, &mut mem, &mut fs, 0x3000, PhysPageNum(250), 0xa000, kernel()),
        7
    );
    assert_eq!(t.inner.children[0].inner.trap_cx.sepc, 0x1000);
    assert_eq!(manager.fetch().unwrap().pid, 7);
}

#[test]
fn regular_file_moves_bytes_to_and_from_user_memory() {
    let mut mem = PhysMem::new(64);
    let mut t = new_task(&mut mem, 1);
    let mut fs = FileSystem::new();
    let name = b"notes".to_vec();
    let flags = OpenFlags::from_bits(OpenFlags::CREATE | OpenFlags::RDWR).unwrap();
    let (_, file) = sys_open(&mut t, &mut fs, &name, flags, 10);
    let mut file = file.unwrap();
    assert_eq!(sys_mmap(&mut t, &mut mem, 0x3000, 0x1000, 3), 0);
    t.inner.memory_set.write_user_bytes(&mut mem, 0x3000, &b"hello".to_vec());
    assert_eq!(file.write_from_user(&mut fs, &t.inner.memory_set, &mem, 0x5000, 5), None);
    assert_eq!(file.write_from_user(&mut fs, &t.inner.memory_set, &mem, 0x3000, 5), Some(5));
    assert_eq!(file.offset(), 5);
    let (_, again) = sys_open(&mut t, &mut fs, &name, OpenFlags::from_bits(0).unwrap(), 11);
    let mut again = again.unwrap();
    assert_eq!(again.read_to_user(&fs, &t.inner.memory_set, &mut mem, 0x5000, 16), None);
    assert_eq!(again.read_to_user(&fs, &t.inner.memory_set, &mut mem, 0x3100, 16), Some(5));
    assert_eq!(t.inner.memory_set.read_user_bytes(&mem, 0x3100, 6), b"hello\0".to_vec());
    assert_eq!(again.read_to_user(&fs, &t.inner.memory_set, &mut mem, 0x3100, 16), Some(0));
}

#[test]
fn store_then_load_gives_the_bytes_back() {
    let mut mem = PhysMem::new(64);
    let mut t = new_task(&mut mem, 1);
    assert_eq!(sys_mmap(&mut t, &mut mem, 0x3000, 0x1000, 3), 0);
    let bytes = b"across".to_vec();
    assert_eq!(law_store_then_load(&t.inner.memory_set, &mut mem, 0x3ffd, &bytes), None);
    assert_eq!(law_store_then_load(&t.inner.memory_set, &mut mem, 0x3ffa, &bytes), Some(bytes.clone()));
}
