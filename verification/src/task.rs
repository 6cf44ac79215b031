//! Process control block: identity, parent/child links, status, stride
//! scheduling weights, the owned address space, saved trap state, and the
//! per-system-call invocation counters.

use vstd::prelude::*;
use crate::mm::{AddressSpace, FrameAlloc, MapArea, PageTableEntry, space_dup};
use crate::{BIG_STRIDE, DEFAULT_PRIORITY, MAX_PID, MAX_SYSCALL_NUM, USER_HEAP_BASE};

verus! {

/// Lifecycle state of a task.
#[derive(Clone, Copy, PartialEq, Eq, Structural, Debug)]
pub enum TaskStatus {
    Ready,
    Running,
    Zombie,
}

/// Saved register state of a task at the moment it trapped into the
/// kernel. This core is oblivious to every slot but the return-value
/// register, so only that slot is modelled.
#[derive(Clone, Copy, PartialEq, Eq, Structural, Debug)]
pub struct TrapContext {
    /// The register in which a resumed task finds a system call's result.
    pub a0: usize,
}

/// One process.
pub struct TaskControlBlock {
    /// Process id, unique for the process's lifetime.
    pub pid: usize,
    /// Pid of the parent, if the task has one; the parent may be torn down
    /// independently, leaving this dangling (the task is then orphaned).
    pub parent: Option<usize>,
    /// Pids of the children, in creation order.
    pub children: Vec<usize>,
    pub status: TaskStatus,
    /// Scheduling priority, always at least 2.
    pub prio: usize,
    /// Accumulated stride; the task with the least stride runs next.
    pub stride: usize,
    /// Stride increment per selection: `BIG_STRIDE / prio`.
    pub pass: usize,
    /// Meaningful only once the task is a zombie.
    pub exit_code: i32,
    pub space: AddressSpace,
    pub trap_cx: TrapContext,
    /// Invocation count per system-call number (saturating).
    pub syscall_times: Vec<u32>,
    /// Time the task was first handed the processor, in microseconds of
    /// kernel time; nothing before it is first scheduled.
    pub first_scheduled_us: Option<usize>,
}

/// A saturating counter increment.
pub open spec fn inc_sat(c: u32) -> u32 {
    if c < u32::MAX {
        (c + 1) as u32
    } else {
        c
    }
}

impl TaskControlBlock {
    /// Structural invariant: lawful scheduling weights, a full counter
    /// table, a well-formed address space, and pids small enough to come
    /// back through a signed system-call result.
    pub open spec fn wf(&self) -> bool {
        &&& self.prio >= 2
        &&& self.pass == BIG_STRIDE / self.prio
        &&& self.syscall_times@.len() == MAX_SYSCALL_NUM
        &&& self.space.wf()
        &&& self.pid <= MAX_PID
        &&& forall|i: int| 0 <= i < self.children@.len() ==> (#[trigger] self.children@[i]) <= MAX_PID
    }

    /// A fresh task: ready to run, default priority, zero stride, an empty
    /// address space with the heap at its default base, zeroed counters,
    /// and a cleared return-value slot.
    pub fn new(pid: usize, parent: Option<usize>) -> (t: TaskControlBlock)
        requires
            pid <= MAX_PID,
        ensures
            t.wf(),
            t.pid == pid,
            t.parent == parent,
            t.children@ == Seq::<usize>::empty(),
            t.status == TaskStatus::Ready,
            t.prio == DEFAULT_PRIORITY,
            t.stride == 0,
            t.pass == BIG_STRIDE / DEFAULT_PRIORITY,
            t.exit_code == 0,
            t.space.pt() == Map::<usize, PageTableEntry>::empty(),
            t.space.area_seq() == Seq::<MapArea>::empty(),
            t.space.base() == USER_HEAP_BASE,
            t.space.brk() == USER_HEAP_BASE,
            t.trap_cx.a0 == 0,
            forall|i: int| 0 <= i < MAX_SYSCALL_NUM ==> t.syscall_times@[i] == 0,
            t.first_scheduled_us is None,
    {
        let mut times: Vec<u32> = Vec::new();
        let mut i: usize = 0;
        while i < MAX_SYSCALL_NUM
            invariant
                0 <= i <= MAX_SYSCALL_NUM,
                times@.len() == i,
                forall|j: int| 0 <= j < i ==> times@[j] == 0,
            decreases MAX_SYSCALL_NUM - i,
        {
            times.push(0);
            i = i + 1;
        }
        TaskControlBlock {
            pid,
            parent,
            children: Vec::new(),
            status: TaskStatus::Ready,
            prio: DEFAULT_PRIORITY,
            stride: 0,
            pass: BIG_STRIDE / DEFAULT_PRIORITY,
            exit_code: 0,
            space: AddressSpace::new(USER_HEAP_BASE),
            trap_cx: TrapContext { a0: 0 },
            syscall_times: times,
            first_scheduled_us: None,
        }
    }

    /// Count one invocation of system call `id`; the counter saturates
    /// instead of wrapping.
    pub fn count_syscall(&mut self, id: usize)
        requires
            old(self).wf(),
            id < MAX_SYSCALL_NUM,
        ensures
            final(self).wf(),
            final(self).syscall_times@ == old(self).syscall_times@.update(
                id as int,
                inc_sat(old(self).syscall_times@[id as int]),
            ),
            *final(self) == (TaskControlBlock {
                syscall_times: final(self).syscall_times,
                ..*old(self)
            }),
    {
        let c = self.syscall_times[id];
        let nc = if c < u32::MAX {
            c + 1
        } else {
            c
        };
        self.syscall_times.set(id, nc);
    }

    /// Set the scheduling priority and recompute the pass; any value below
    /// 2 is rejected with -1 and changes nothing. (A priority above
    /// `BIG_STRIDE` yields a pass of zero, so such a task's stride never
    /// advances and it keeps winning the scheduler: inherited from the
    /// pass formula itself.)
    pub fn set_priority(&mut self, prio: isize) -> (r: isize)
        requires
            old(self).wf(),
        ensures
            final(self).wf(),
            prio >= 2 ==> r == prio
                && final(self).prio == prio as usize
                && final(self).pass == BIG_STRIDE / (prio as usize)
                && *final(self) == (TaskControlBlock {
                    prio: final(self).prio,
                    pass: final(self).pass,
                    ..*old(self)
                }),
            prio < 2 ==> r == -1 && *final(self) == *old(self),
    {
        if prio < 2 {
            return -1;
        }
        self.prio = prio as usize;
        self.pass = BIG_STRIDE / self.prio;
        prio
    }

    /// Fork: a child with a fresh pid, a duplicate of the parent address
    /// space backed by fresh frames, default scheduling weights, zeroed
    /// counters, and a zeroed return-value slot (fork reads as 0 in the
    /// child); the child pid joins the children list. Enqueueing the child
    /// is left to the system-call layer.
    pub fn fork(&mut self, new_pid: usize, fa: &mut FrameAlloc) -> (child: TaskControlBlock)
        requires
            old(self).wf(),
            new_pid <= MAX_PID,
        ensures
            final(self).wf(),
            child.wf(),
            final(self).children@ == old(self).children@.push(new_pid),
            *final(self) == (TaskControlBlock {
                children: final(self).children,
                ..*old(self)
            }),
            child.pid == new_pid,
            child.parent == Some(old(self).pid),
            child.children@ == Seq::<usize>::empty(),
            child.status == TaskStatus::Ready,
            child.prio == DEFAULT_PRIORITY,
            child.stride == 0,
            child.pass == BIG_STRIDE / DEFAULT_PRIORITY,
            child.exit_code == 0,
            space_dup(old(self).space, child.space),
            child.trap_cx.a0 == 0,
            forall|i: int| 0 <= i < MAX_SYSCALL_NUM ==> child.syscall_times@[i] == 0,
            child.first_scheduled_us is None,
    {
        let space = self.space.clone_space(fa);
        let mut child = TaskControlBlock::new(new_pid, Some(self.pid));
        child.space = space;
        self.children.push(new_pid);
        child
    }

    /// Exec: replace the address space and trap state with a freshly
    /// loaded program image; pid, family links, scheduling weights, and
    /// counters are all preserved.
    pub fn exec_image(&mut self)
        requires
            old(self).wf(),
        ensures
            final(self).wf(),
            final(self).space.pt() == Map::<usize, PageTableEntry>::empty(),
            final(self).space.area_seq() == Seq::<MapArea>::empty(),
            final(self).space.base() == USER_HEAP_BASE,
            final(self).space.brk() == USER_HEAP_BASE,
            final(self).trap_cx.a0 == 0,
            *final(self) == (TaskControlBlock {
                space: final(self).space,
                trap_cx: final(self).trap_cx,
                ..*old(self)
            }),
    {
        self.space = AddressSpace::new(USER_HEAP_BASE);
        self.trap_cx = TrapContext { a0: 0 };
    }
}

} // verus!
