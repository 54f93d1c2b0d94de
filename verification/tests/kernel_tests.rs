use rcore_os::config::{BIG_STRIDE, CLOCK_FREQ};
use rcore_os::signal::{SignalFlags, MAX_SIG};
use rcore_os::task::{Processor, ReadyTask, TaskContext, TaskManager};
use rcore_os::timer::{get_time, get_time_ms, get_time_us, set_next_trigger, TICKS_PER_SEC};
use rcore_os::trap::{trap_handler, TrapAction, TrapCause, TrapContext};

fn user_context() -> TrapContext {
    let mut cx = TrapContext::app_init_context(0x1000, 0x8000, 0x1a2, 11, 22, 33);
    cx.x[17] = 64;
    cx.x[10] = 1;
    cx.x[11] = 0x2000;
    cx.x[12] = 9;
    cx
}

#[test]
fn app_context_enters_user_mode_at_entry() {
    let cx = TrapContext::app_init_context(0x1000, 0x8000, 0x1a2, 11, 22, 33);
    assert_eq!(cx.sepc, 0x1000);
    assert_eq!(cx.x[2], 0x8000);
    assert_eq!(cx.sstatus, 0xa2);
    assert_eq!((cx.kernel_satp, cx.kernel_sp, cx.trap_handler), (11, 22, 33));
    assert!(cx.x.iter().enumerate().all(|(i, v)| i == 2 || *v == 0));
}

#[test]
fn ecall_advances_past_instruction_and_decodes_arguments() {
    let mut cx = user_context();
    let action = trap_handler(&mut cx, TrapCause::UserEnvCall, 0);
    assert!(action == TrapAction::Syscall { id: 64, a0: 1, a1: 0x2000, a2: 9 });
    assert_eq!(cx.sepc, 0x1004);
    cx.set_syscall_result(-1);
    assert_eq!(cx.x[10], usize::MAX);
}

#[test]
fn faults_kill_without_touching_context() {
    let mut cx = user_context();
    assert!(trap_handler(&mut cx, TrapCause::StorePageFault, 0x10) == TrapAction::KillPageFault);
    assert!(trap_handler(&mut cx, TrapCause::StoreFault, 0x10) == TrapAction::KillPageFault);
    assert!(trap_handler(&mut cx, TrapCause::IllegalInstruction, 0) == TrapAction::KillIllegalInstruction);
    assert!(trap_handler(&mut cx, TrapCause::Other(5), 0x44) == TrapAction::Unsupported { scause: 5, stval: 0x44 });
    assert_eq!(cx.sepc, 0x1000);
}

#[test]
fn timer_conversions() {
    assert_eq!(get_time(12345), 12345);
    assert_eq!(get_time_ms(CLOCK_FREQ * 3 + CLOCK_FREQ / 2), 3500);
    assert_eq!(get_time_us(125), 10);
    assert_eq!(get_time_us(CLOCK_FREQ), 1_000_000);
    assert_eq!(set_next_trigger(1000), 1000 + CLOCK_FREQ / TICKS_PER_SEC);
    assert_eq!(set_next_trigger(0), 125_000);
}

#[test]
fn stride_scheduler_picks_smallest_stride_first_in_queue_on_ties() {
    let mut m = TaskManager::new();
    m.add(ReadyTask { pid: 1, stride: 10, prio: 16 });
    m.add(ReadyTask { pid: 2, stride: 5, prio: 2 });
    m.add(ReadyTask { pid: 3, stride: 5, prio: 4 });
    let t = m.fetch().unwrap();
    assert_eq!((t.pid, t.stride), (2, 5 + BIG_STRIDE / 2));
    let t = m.fetch().unwrap();
    assert_eq!((t.pid, t.stride), (3, 5 + BIG_STRIDE / 4));
    let t = m.fetch().unwrap();
    assert_eq!((t.pid, t.stride), (1, 10 + BIG_STRIDE / 16));
    assert!(m.fetch().is_none());
}

#[test]
fn higher_priority_runs_more_often() {
    let mut m = TaskManager::new();
    m.add(ReadyTask { pid: 1, stride: 0, prio: 2 });
    m.add(ReadyTask { pid: 2, stride: 0, prio: 8 });
    let mut runs = [0usize; 3];
    for _ in 0..50 {
        let t = m.fetch().unwrap();
        runs[t.pid] += 1;
        m.add(t);
    }
    assert!(runs[2] > 3 * runs[1]);
}

#[test]
fn processor_tracks_running_task() {
    let mut p = Processor::new();
    assert_eq!(p.current(), None);
    p.set_current(3);
    assert_eq!(p.current(), Some(3));
    assert_eq!(p.take_current(), Some(3));
    assert_eq!(p.take_current(), None);
    let _ = TaskContext::zero_init();
    let _ = TaskContext::goto_restore(0x8000, 0x1234);
}

#[test]
fn signal_sets() {
    let mut s = SignalFlags::empty();
    let kill = SignalFlags::single(9);
    assert_eq!(kill.bits(), SignalFlags::SIGKILL);
    assert!(!s.contains(kill));
    s.insert(kill);
    assert!(s.contains(kill));
    assert_eq!(SignalFlags::single(MAX_SIG as u32).bits(), 1 << 31);
    assert_eq!(SignalFlags::from_bits(0xffff_ffff).unwrap().bits(), 0xffff_ffff);
}
