//! Task contexts, task states, and stride scheduling of the ready queue.
use vstd::prelude::*;
use crate::config::BIG_STRIDE;

verus! {

/// The registers saved when the kernel switches away from a task.
#[derive(Copy, Clone)]
pub struct TaskContext {
    /// Where execution resumes.
    ra: usize,
    /// The kernel stack pointer.
    sp: usize,
    /// Callee-saved registers s0..s11.
    s: [usize; 12],
}

impl TaskContext {
    /// The saved return address.
    pub closed spec fn ra(&self) -> usize {
        self.ra
    }

    /// The saved stack pointer.
    pub closed spec fn sp(&self) -> usize {
        self.sp
    }

    /// The saved registers s0..s11.
    pub closed spec fn saved(&self) -> Seq<usize> {
        self.s@
    }

    /// A context whose registers are all zero.
    pub fn zero_init() -> (r: Self)
        ensures
            r.ra() == 0,
            r.sp() == 0,
            r.saved() == Seq::new(12, |i: int| 0usize),
    {
        let r = Self { ra: 0, sp: 0, s: [0usize; 12] };
        assert(r.saved() =~= Seq::new(12, |i: int| 0usize));
        r
    }

    /// The context for a task's first run: resume at the trap-restore entry
    /// `restore_entry` with the stack at `kstack_ptr`, where the task's
    /// initial trap context lies; s0..s11 are zero.
    pub fn goto_restore(kstack_ptr: usize, restore_entry: usize) -> (r: Self)
        ensures
            r.ra() == restore_entry,
            r.sp() == kstack_ptr,
            r.saved() == Seq::new(12, |i: int| 0usize),
    {
        let r = Self { ra: restore_entry, sp: kstack_ptr, s: [0usize; 12] };
        assert(r.saved() =~= Seq::new(12, |i: int| 0usize));
        r
    }

    /// The context for a process's first run: resume at the trap-return
    /// entry `trap_return_entry` on the kernel stack whose top is `kstack_ptr`.
    pub fn goto_trap_return(kstack_ptr: usize, trap_return_entry: usize) -> (r: Self)
        ensures
            r.ra() == trap_return_entry,
            r.sp() == kstack_ptr,
            r.saved() == Seq::new(12, |i: int| 0usize),
    {
        let r = Self { ra: trap_return_entry, sp: kstack_ptr, s: [0usize; 12] };
        assert(r.saved() =~= Seq::new(12, |i: int| 0usize));
        r
    }
}

/// Process execution status; zombies remain until their parent reaps them.
#[derive(Copy, Clone, PartialEq, Eq, Structural)]
pub enum TaskStatus {
    /// uninitialized
    UnInit,
    /// ready to run
    Ready,
    /// running
    Running,
    /// Exited and awaiting reaping by the parent
    Zombie,
}

/// What the scheduler knows of a ready process.
#[derive(Copy, Clone, PartialEq, Eq, Structural)]
pub struct ReadyTask {
    /// Process identifier.
    pub pid: usize,
    /// Accumulated scheduling stride.
    pub stride: usize,
    /// Scheduling priority, at least 2.
    pub prio: usize,
}

/// The stride charged to a task of priority `prio` per dispatch.
pub open spec fn pass(prio: usize) -> int {
    BIG_STRIDE as int / prio as int
}

/// Ready processes in insertion order.
pub struct TaskManager {
    ready_queue: std::collections::VecDeque<ReadyTask>,
}

impl TaskManager {
    /// The ready processes in queue order.
    pub closed spec fn queue(&self) -> Seq<ReadyTask> {
        self.ready_queue@
    }

    /// Create an empty manager.
    pub fn new() -> (r: Self)
        ensures
            r.queue() == Seq::<ReadyTask>::empty(),
    {
        Self { ready_queue: std::collections::VecDeque::new() }
    }

    /// Add a process at the back of the ready queue.
    pub fn add(&mut self, task: ReadyTask)
        ensures
            final(self).queue() == old(self).queue().push(task),
    {
        self.ready_queue.push_back(task);
    }

    /// Select and remove the ready process with the smallest stride, the
    /// earliest queued among equals, and charge it `BIG_STRIDE / prio`. The
    /// other processes keep their order.
    pub fn fetch(&mut self) -> (r: Option<ReadyTask>)
        requires
            forall|k: int|
                0 <= k < old(self).queue().len() ==> (#[trigger] old(self).queue()[k]).prio >= 2
                    && old(self).queue()[k].stride + pass(old(self).queue()[k].prio) <= usize::MAX,
        ensures
            old(self).queue().len() == 0 ==> r is None && final(self).queue() == old(self).queue(),
            old(self).queue().len() > 0 ==> exists|idx: int|
                {
                    &&& 0 <= idx < old(self).queue().len()
                    &&& forall|k: int|
                        0 <= k < old(self).queue().len() ==> old(self).queue()[idx].stride
                            <= #[trigger] old(self).queue()[k].stride
                    &&& forall|k: int|
                        0 <= k < idx ==> old(self).queue()[idx].stride
                            < #[trigger] old(self).queue()[k].stride
                    &&& final(self).queue() == old(self).queue().remove(idx)
                    &&& r == Some(
                        ReadyTask {
                            stride: (old(self).queue()[idx].stride + pass(
                                old(self).queue()[idx].prio,
                            )) as usize,
                            ..old(self).queue()[idx]
                        },
                    )
                },
    {
        let n = self.ready_queue.len();
        if n == 0 {
            return None;
        }
        let mut best: usize = 0;
        let mut i: usize = 1;
        while i < n
            invariant
                n == self.queue().len(),
                self.queue() == old(self).queue(),
                1 <= i <= n,
                best < i,
                forall|k: int| 0 <= k < i ==> self.queue()[best as int].stride <= #[trigger] self.queue()[k].stride,
                forall|k: int| 0 <= k < best ==> self.queue()[best as int].stride < #[trigger] self.queue()[k].stride,
            decreases n - i,
        {
            if self.ready_queue[i].stride < self.ready_queue[best].stride {
                best = i;
            }
            i = i + 1;
        }
        let task = self.ready_queue.remove(best);
        match task {
            Some(t) => {
                let p = BIG_STRIDE / t.prio;
                Some(ReadyTask { stride: t.stride + p, ..t })
            },
            None => None,
        }
    }
}

/// The processor's record of the running process.
pub struct Processor {
    current: Option<usize>,
    idle_task_cx: TaskContext,
}

impl Processor {
    /// The running process, if any.
    pub closed spec fn running(&self) -> Option<usize> {
        self.current
    }

    /// The context saved when the processor switches away from its idle
    /// loop.
    pub closed spec fn idle_context(&self) -> TaskContext {
        self.idle_task_cx
    }

    /// Create a processor that runs nothing, with a zeroed idle context.
    pub fn new() -> (r: Self)
        ensures
            r.running() is None,
            r.idle_context().ra() == 0,
            r.idle_context().sp() == 0,
            r.idle_context().saved() == Seq::new(12, |i: int| 0usize),
    {
        Self { current: None, idle_task_cx: TaskContext::zero_init() }
    }

    /// Take the running process out, leaving none.
    pub fn take_current(&mut self) -> (r: Option<usize>)
        ensures
            r == old(self).running(),
            final(self).running() is None,
    {
        self.current.take()
    }

    /// The running process, left in place.
    pub fn current(&self) -> (r: Option<usize>)
        ensures
            r == self.running(),
    {
        self.current
    }

    /// Install `pid` as the running process.
    pub fn set_current(&mut self, pid: usize)
        ensures
            final(self).running() == Some(pid),
    {
        self.current = Some(pid);
    }
}

} // verus!
