//! Kernel state and the system-call layer. The state that a real kernel
//! keeps in process-wide singletons — the ready queue, the running task,
//! the zombie store, the frame allocator, the clock and the physical
//! memory behind user pages — is threaded explicitly through every call.

use vstd::prelude::*;
use std::collections::HashMap;
use crate::manager::{TaskManager, advanced, pick_idx, sat_add};
use crate::mm::{
    brk_ok, mmap_post, munmap_post, space_dup, vpn_floor, AddressSpace, FrameAlloc,
    MapArea, PageTableEntry,
};
use crate::task::{inc_sat, TaskControlBlock, TaskStatus};
use crate::{BIG_STRIDE, DEFAULT_PRIORITY, MAX_PID, MAX_PPN, MAX_SYSCALL_NUM, PAGE_SIZE, USER_HEAP_BASE};

verus! {

broadcast use vstd::std_specs::hash::group_hash_axioms;

/// The words the kernel has stored into physical memory on behalf of user
/// programs, keyed by physical byte address.
pub struct PhysMem {
    words: HashMap<usize, usize>,
}

impl PhysMem {
    pub closed spec fn view(&self) -> Map<usize, usize> {
        self.words@
    }

    fn new() -> (m: PhysMem)
        ensures
            m.view() == Map::<usize, usize>::empty(),
    {
        PhysMem { words: HashMap::new() }
    }

    fn write_word(&mut self, pa: usize, value: usize)
        ensures
            final(self).view() == old(self).view().insert(pa, value),
    {
        self.words.insert(pa, value);
    }

    fn read_word(&self, pa: usize) -> (r: Option<usize>)
        ensures
            r == (if self.view().contains_key(pa) {
                Some(self.view()[pa])
            } else {
                None::<usize>
            }),
    {
        match self.words.get(&pa) {
            Some(w) => Some(*w),
            None => None,
        }
    }
}

/// The whole kernel: scheduler, running task, zombies awaiting reaping,
/// pid source, frame allocator, stored user memory, the clock, and the
/// catalog of loadable program images.
pub struct Kernel {
    manager: TaskManager,
    current: Option<TaskControlBlock>,
    zombies: Vec<TaskControlBlock>,
    next_pid: usize,
    frames: FrameAlloc,
    mem: PhysMem,
    time_us: usize,
    images: Vec<Vec<u8>>,
}

/// The task as it looks when handed the processor: running, and stamped
/// with its first-scheduled time if it never ran before.
pub open spec fn run_version(t: TaskControlBlock, now: usize) -> TaskControlBlock {
    TaskControlBlock {
        status: TaskStatus::Running,
        first_scheduled_us: if t.first_scheduled_us is Some {
            t.first_scheduled_us
        } else {
            Some(now)
        },
        ..t
    }
}

/// The task as it re-enters the ready queue.
pub open spec fn ready_version(t: TaskControlBlock) -> TaskControlBlock {
    TaskControlBlock { status: TaskStatus::Ready, ..t }
}

/// The task as it dies: a zombie holding its exit code.
pub open spec fn zombie_version(t: TaskControlBlock, code: i32) -> TaskControlBlock {
    TaskControlBlock { status: TaskStatus::Zombie, exit_code: code, ..t }
}

/// One scheduler hand-off from ready queue `q0`: the minimum-stride task
/// (ties to higher priority) leaves the queue, its stride advanced, and
/// runs; an empty queue leaves the processor idle.
pub open spec fn sched_post(
    q0: Seq<TaskControlBlock>,
    now: usize,
    cur1: Option<TaskControlBlock>,
    q1: Seq<TaskControlBlock>,
) -> bool {
    if q0.len() == 0 {
        cur1 is None && q1 == q0
    } else {
        let i = pick_idx(q0);
        &&& cur1 == Some(run_version(advanced(q0[i]), now))
        &&& q1 == q0.remove(i)
        &&& forall|j: int| 0 <= j < q0.len() ==> q0[i].stride <= (#[trigger] q0[j]).stride
    }
}

/// The physical byte address behind virtual address `va` in space `s`
/// (meaningful only when the page of `va` is mapped).
pub open spec fn pa_spec(s: AddressSpace, va: usize) -> usize {
    (s.pt()[vpn_floor(va)].ppn * PAGE_SIZE + va % PAGE_SIZE) as usize
}

/// True when the page holding virtual address `va` is mapped in `s`.
pub open spec fn translatable(s: AddressSpace, va: usize) -> bool {
    s.pt().contains_key(vpn_floor(va))
}

impl Kernel {
    pub closed spec fn cur(&self) -> Option<TaskControlBlock> {
        self.current
    }

    pub closed spec fn ready(&self) -> Seq<TaskControlBlock> {
        self.manager.tasks()
    }

    pub closed spec fn zoms(&self) -> Seq<TaskControlBlock> {
        self.zombies@
    }

    pub closed spec fn now(&self) -> usize {
        self.time_us
    }

    pub closed spec fn words(&self) -> Map<usize, usize> {
        self.mem.view()
    }

    pub closed spec fn npid(&self) -> usize {
        self.next_pid
    }

    pub closed spec fn image_names(&self) -> Seq<Vec<u8>> {
        self.images@
    }

    pub open spec fn has_current(&self) -> bool {
        self.cur() is Some
    }

    /// Structural invariant: the running task is a well-formed running
    /// task already stamped with a first-scheduled time no later than now;
    /// ready tasks are well-formed and ready; zombies are well-formed
    /// zombies; the pid source never passes the signed-result bound.
    pub open spec fn wf(&self) -> bool {
        &&& self.npid() <= MAX_PID
        &&& self.cur() matches Some(c) ==> c.wf() && c.status == TaskStatus::Running
                && (c.first_scheduled_us matches Some(f) && f <= self.now())
        &&& forall|i: int| 0 <= i < self.ready().len()
                ==> (#[trigger] self.ready()[i]).wf()
                    && self.ready()[i].status == TaskStatus::Ready
                    && (self.ready()[i].first_scheduled_us matches Some(f) ==> f <= self.now())
        &&& forall|i: int| 0 <= i < self.zoms().len()
                ==> (#[trigger] self.zoms()[i]).wf()
                    && self.zoms()[i].status == TaskStatus::Zombie
    }

    /// A kernel with no tasks, no stored words, no images, and the clock
    /// at zero.
    pub fn new() -> (k: Kernel)
        ensures
            k.wf(),
            k.cur() is None,
            k.ready() == Seq::<TaskControlBlock>::empty(),
            k.zoms() == Seq::<TaskControlBlock>::empty(),
            k.now() == 0,
            k.words() == Map::<usize, usize>::empty(),
            k.npid() == 0,
            k.image_names() == Seq::<Vec<u8>>::empty(),
    {
        let k = Kernel {
            manager: TaskManager::new(),
            current: None,
            zombies: Vec::new(),
            next_pid: 0,
            frames: FrameAlloc::new(),
            mem: PhysMem::new(),
            time_us: 0,
            images: Vec::new(),
        };
        proof {
            assert(k.zoms() =~= Seq::<TaskControlBlock>::empty());
            assert(k.image_names() =~= Seq::<Vec<u8>>::empty());
        }
        k
    }

    /// Make a program image name loadable; models the image catalog that
    /// `exec` and `spawn` consult.
    pub fn register_image(&mut self, name: Vec<u8>)
        requires
            old(self).wf(),
        ensures
            final(self).wf(),
            final(self).image_names() == old(self).image_names().push(name),
            final(self).cur() == old(self).cur(),
            final(self).ready() == old(self).ready(),
            final(self).zoms() == old(self).zoms(),
            final(self).words() == old(self).words(),
            final(self).now() == old(self).now(),
            final(self).npid() == old(self).npid(),
    {
        self.images.push(name);
    }

    /// Create the first task and hand it the processor.
    pub fn boot(&mut self)
        requires
            old(self).wf(),
            old(self).cur() is None,
            old(self).npid() < MAX_PID,
        ensures
            final(self).wf(),
            (final(self).cur() matches Some(c) && c.pid == old(self).npid()
                && c.parent is None && c.status == TaskStatus::Running
                && c.prio == DEFAULT_PRIORITY && c.stride == 0
                && c.first_scheduled_us == Some(old(self).now())
                && c.children@ == Seq::<usize>::empty()
                && c.space.pt() == Map::<usize, PageTableEntry>::empty()
                && c.space.brk() == USER_HEAP_BASE),
            final(self).npid() == old(self).npid() + 1,
            final(self).ready() == old(self).ready(),
            final(self).zoms() == old(self).zoms(),
            final(self).words() == old(self).words(),
            final(self).now() == old(self).now(),
            final(self).image_names() == old(self).image_names(),
    {
        let mut t = TaskControlBlock::new(self.next_pid, None);
        t.status = TaskStatus::Running;
        t.first_scheduled_us = Some(self.time_us);
        self.next_pid = self.next_pid + 1;
        self.current = Some(t);
    }

    /// Advance the kernel clock by `us` microseconds (saturating): the
    /// model of the external monotonic timer.
    pub fn advance_time(&mut self, us: usize)
        requires
            old(self).wf(),
        ensures
            final(self).wf(),
            final(self).now() == sat_add(old(self).now(), us),
            final(self).cur() == old(self).cur(),
            final(self).ready() == old(self).ready(),
            final(self).zoms() == old(self).zoms(),
            final(self).words() == old(self).words(),
            final(self).npid() == old(self).npid(),
            final(self).image_names() == old(self).image_names(),
    {
        let now = self.time_us;
        self.time_us = if now <= usize::MAX - us {
            now + us
        } else {
            usize::MAX
        };
    }

    /// Hand the processor to the next ready task, if any: the scheduler
    /// step taken after an exit, and usable to start a freshly booted
    /// system from the queue.
    pub fn run_next(&mut self) -> (ran: bool)
        requires
            old(self).wf(),
            old(self).cur() is None,
        ensures
            final(self).wf(),
            ran == (old(self).ready().len() > 0),
            sched_post(old(self).ready(), old(self).now(), final(self).cur(), final(self).ready()),
            final(self).zoms() == old(self).zoms(),
            final(self).words() == old(self).words(),
            final(self).now() == old(self).now(),
            final(self).npid() == old(self).npid(),
            final(self).image_names() == old(self).image_names(),
    {
        match self.manager.fetch() {
            Some(t) => {
                let mut t = t;
                t.status = TaskStatus::Running;
                if t.first_scheduled_us.is_none() {
                    t.first_scheduled_us = Some(self.time_us);
                }
                proof {
                    let q0 = old(self).ready();
                    assert(t == run_version(advanced(q0[pick_idx(q0)]), old(self).now()));
                }
                self.current = Some(t);
                true
            },
            None => {
                false
            },
        }
    }
}

/// Count one invocation of system call `id` against the running task:
/// the dispatcher calls this before handing control to the call itself.
pub fn record_syscall(k: &mut Kernel, id: usize)
    requires
        old(k).wf(),
        old(k).has_current(),
        id < MAX_SYSCALL_NUM,
    ensures
        final(k).wf(),
        ({
            let c0 = old(k).cur().unwrap();
            let c1 = final(k).cur().unwrap();
            final(k).cur() is Some
                && c1.syscall_times@ == c0.syscall_times@.update(
                    id as int,
                    inc_sat(c0.syscall_times@[id as int]),
                )
                && c1 == (TaskControlBlock { syscall_times: c1.syscall_times, ..c0 })
        }),
        final(k).ready() == old(k).ready(),
        final(k).zoms() == old(k).zoms(),
        final(k).words() == old(k).words(),
        final(k).now() == old(k).now(),
        final(k).npid() == old(k).npid(),
        final(k).image_names() == old(k).image_names(),
{
    let mut t = k.current.take().unwrap();
    t.count_syscall(id);
    k.current = Some(t);
}

/// The running task gives up the processor: it re-enters the ready queue
/// and the scheduler picks the next task (possibly the same one).
pub fn sys_yield(k: &mut Kernel) -> (r: isize)
    requires
        old(k).wf(),
        old(k).has_current(),
    ensures
        final(k).wf(),
        r == 0,
        final(k).has_current(),
        sched_post(
            old(k).ready().push(ready_version(old(k).cur().unwrap())),
            old(k).now(),
            final(k).cur(),
            final(k).ready(),
        ),
        final(k).zoms() == old(k).zoms(),
        final(k).words() == old(k).words(),
        final(k).now() == old(k).now(),
        final(k).npid() == old(k).npid(),
        final(k).image_names() == old(k).image_names(),
{
    let mut t = k.current.take().unwrap();
    t.status = TaskStatus::Ready;
    k.manager.add(t);
    let _ = k.run_next();
    proof {
        assert(old(k).ready().push(ready_version(old(k).cur().unwrap())).len() > 0);
    }
    0
}

/// The running task exits with `code`: it becomes a zombie held for its
/// parent to reap, and the scheduler hands the processor on (the call
/// itself never returns to the exiting task).
pub fn sys_exit(k: &mut Kernel, exit_code: i32)
    requires
        old(k).wf(),
        old(k).has_current(),
    ensures
        final(k).wf(),
        final(k).zoms() == old(k).zoms().push(zombie_version(old(k).cur().unwrap(), exit_code)),
        sched_post(old(k).ready(), old(k).now(), final(k).cur(), final(k).ready()),
        final(k).words() == old(k).words(),
        final(k).now() == old(k).now(),
        final(k).npid() == old(k).npid(),
        final(k).image_names() == old(k).image_names(),
{
    let mut t = k.current.take().unwrap();
    t.status = TaskStatus::Zombie;
    t.exit_code = exit_code;
    self_zombie_push(k, t);
    let _ = k.run_next();
}

/// Store a finished task in the zombie list.
fn self_zombie_push(k: &mut Kernel, t: TaskControlBlock)
    requires
        old(k).wf(),
        t.wf(),
        t.status == TaskStatus::Zombie,
    ensures
        final(k).wf(),
        final(k).zoms() == old(k).zoms().push(t),
        final(k).cur() == old(k).cur(),
        final(k).ready() == old(k).ready(),
        final(k).words() == old(k).words(),
        final(k).now() == old(k).now(),
        final(k).npid() == old(k).npid(),
        final(k).image_names() == old(k).image_names(),
{
    k.zombies.push(t);
}

/// The pid of the running task.
pub fn sys_getpid(k: &Kernel) -> (r: isize)
    requires
        k.wf(),
        k.has_current(),
    ensures
        r == k.cur().unwrap().pid as isize,
        r >= 0,
{
    k.current.as_ref().unwrap().pid as isize
}

/// Set the running task's scheduling priority; any value below 2 is
/// rejected with -1 and the stored priority and pass are unchanged.
pub fn sys_set_priority(k: &mut Kernel, prio: isize) -> (r: isize)
    requires
        old(k).wf(),
        old(k).has_current(),
    ensures
        final(k).wf(),
        ({
            let c0 = old(k).cur().unwrap();
            let c1 = final(k).cur().unwrap();
            final(k).cur() is Some
                && (prio >= 2 ==> r == prio && c1.prio == prio as usize
                    && c1.pass == BIG_STRIDE / (prio as usize)
                    && c1 == (TaskControlBlock { prio: c1.prio, pass: c1.pass, ..c0 }))
                && (prio < 2 ==> r == -1 && c1 == c0)
        }),
        final(k).ready() == old(k).ready(),
        final(k).zoms() == old(k).zoms(),
        final(k).words() == old(k).words(),
        final(k).now() == old(k).now(),
        final(k).npid() == old(k).npid(),
        final(k).image_names() == old(k).image_names(),
{
    let mut t = k.current.take().unwrap();
    let r = t.set_priority(prio);
    k.current = Some(t);
    r
}

/// Map memory in the running task's address space; see
/// `AddressSpace::mmap` for the exact contract.
pub fn sys_mmap(k: &mut Kernel, start: usize, len: usize, port: usize) -> (r: isize)
    requires
        old(k).wf(),
        old(k).has_current(),
        start + len <= usize::MAX,
    ensures
        final(k).wf(),
        final(k).cur() is Some,
        mmap_post(old(k).cur().unwrap().space, final(k).cur().unwrap().space, r, start, len, port),
        final(k).cur().unwrap() == (TaskControlBlock {
            space: final(k).cur().unwrap().space,
            ..old(k).cur().unwrap()
        }),
        final(k).ready() == old(k).ready(),
        final(k).zoms() == old(k).zoms(),
        final(k).words() == old(k).words(),
        final(k).now() == old(k).now(),
        final(k).npid() == old(k).npid(),
        final(k).image_names() == old(k).image_names(),
{
    let mut t = k.current.take().unwrap();
    let r = t.space.mmap(&mut k.frames, start, len, port);
    k.current = Some(t);
    r
}

/// Unmap memory in the running task's address space; see
/// `AddressSpace::munmap` for the exact contract.
pub fn sys_munmap(k: &mut Kernel, start: usize, len: usize) -> (r: isize)
    requires
        old(k).wf(),
        old(k).has_current(),
        start + len <= usize::MAX,
    ensures
        final(k).wf(),
        final(k).cur() is Some,
        munmap_post(old(k).cur().unwrap().space, final(k).cur().unwrap().space, r, start, len),
        final(k).cur().unwrap() == (TaskControlBlock {
            space: final(k).cur().unwrap().space,
            ..old(k).cur().unwrap()
        }),
        final(k).ready() == old(k).ready(),
        final(k).zoms() == old(k).zoms(),
        final(k).words() == old(k).words(),
        final(k).now() == old(k).now(),
        final(k).npid() == old(k).npid(),
        final(k).image_names() == old(k).image_names(),
{
    let mut t = k.current.take().unwrap();
    let r = t.space.munmap(start, len);
    k.current = Some(t);
    r
}

/// Move the running task's heap break by `size` bytes; returns the old
/// break on success and -1 when the move would shrink the break below the
/// heap base (or push it past `MAX_BRK`, the machine limit of this signed
/// result).
pub fn sys_sbrk(k: &mut Kernel, size: i32) -> (r: isize)
    requires
        old(k).wf(),
        old(k).has_current(),
    ensures
        final(k).wf(),
        final(k).cur() is Some,
        ({
            let s0 = old(k).cur().unwrap().space;
            let s1 = final(k).cur().unwrap().space;
            &&& (r == -1 <==> !brk_ok(s0, size))
            &&& (r != -1 ==> r == s0.brk() && s1.brk() == s0.brk() + size
                    && s1.pt() == s0.pt() && s1.area_seq() == s0.area_seq()
                    && s1.base() == s0.base())
            &&& (r == -1 ==> s1 == s0)
        }),
        final(k).cur().unwrap() == (TaskControlBlock {
            space: final(k).cur().unwrap().space,
            ..old(k).cur().unwrap()
        }),
        final(k).ready() == old(k).ready(),
        final(k).zoms() == old(k).zoms(),
        final(k).words() == old(k).words(),
        final(k).now() == old(k).now(),
        final(k).npid() == old(k).npid(),
        final(k).image_names() == old(k).image_names(),
{
    let mut t = k.current.take().unwrap();
    let r = match t.space.change_program_brk(size) {
        Some(old_brk) => old_brk as isize,
        None => -1,
    };
    k.current = Some(t);
    r
}

/// Wire structure of the `get_time` result: seconds and microseconds.
#[derive(Clone, Copy, PartialEq, Eq, Structural, Debug)]
pub struct TimeVal {
    pub sec: usize,
    pub usec: usize,
}

/// The `TimeVal` for a clock reading of `us` microseconds.
pub fn time_val_of_us(us: usize) -> (tv: TimeVal)
    ensures
        tv.sec == us / 1_000_000,
        tv.usec == us % 1_000_000,
{
    TimeVal { sec: us / 1_000_000, usec: us % 1_000_000 }
}

/// Wire structure of the `task_info` result: status, per-system-call
/// invocation counts, and elapsed run time in milliseconds.
pub struct TaskInfo {
    pub status: TaskStatus,
    pub syscall_times: Vec<u32>,
    pub time: usize,
}

/// The tag under which a status is written to user memory.
pub open spec fn status_code(st: TaskStatus) -> usize {
    match st {
        TaskStatus::Ready => 0,
        TaskStatus::Running => 1,
        TaskStatus::Zombie => 2,
    }
}

/// Milliseconds the task has existed since it was first scheduled.
pub open spec fn elapsed_ms(c: TaskControlBlock, now: usize) -> usize {
    (((now - c.first_scheduled_us.unwrap()) / 1000) as usize)
}

/// Byte offset of the elapsed-time word inside a written `TaskInfo`.
pub const TASK_INFO_TIME_OFFSET: usize = 8 + 4 * MAX_SYSCALL_NUM;

/// Exit code recorded for a task the kernel terminates because it handed
/// a system call a pointer whose page is not mapped: dereferencing it
/// would be fatal, so the offending task is ended instead.
pub const FAULT_EXIT_CODE: i32 = -1;

/// `m` with the first `n` counters of `times` written as words at the
/// virtual addresses `base_va`, `base_va + 4`, `base_va + 8`, ..., each
/// resolved through `s`'s page table at its own page.
pub open spec fn write_times_va(
    m: Map<usize, usize>,
    s: AddressSpace,
    base_va: usize,
    times: Seq<u32>,
    n: int,
) -> Map<usize, usize>
    decreases n,
{
    if n <= 0 {
        m
    } else {
        write_times_va(m, s, base_va, times, n - 1).insert(
            pa_spec(s, (base_va + 4 * (n - 1)) as usize),
            times[n - 1] as usize,
        )
    }
}

/// Everything `task_info` stores through the user pointer `ti`: the
/// status tag, the counter table, and the elapsed time, each word at the
/// physical address its own virtual page resolves to in `s`.
pub open spec fn taskinfo_words(
    m: Map<usize, usize>,
    s: AddressSpace,
    ti: usize,
    c: TaskControlBlock,
    now: usize,
) -> Map<usize, usize> {
    write_times_va(
        m.insert(pa_spec(s, ti), status_code(c.status)),
        s,
        (ti + 8) as usize,
        c.syscall_times@,
        MAX_SYSCALL_NUM as int,
    ).insert(pa_spec(s, (ti + TASK_INFO_TIME_OFFSET) as usize), elapsed_ms(c, now))
}

/// The physical address behind `va` in `s`; resolving it also shows the
/// whole surrounding page fits below the top of the address space.
fn pa_of(s: &AddressSpace, va: usize) -> (r: usize)
    requires
        s.wf(),
        translatable(*s, va),
    ensures
        r == pa_spec(*s, va),
        r <= usize::MAX - PAGE_SIZE,
{
    let vpn = va / PAGE_SIZE;
    let pte = s.translate(vpn).unwrap();
    proof {
        assert(pte.ppn <= MAX_PPN);
        assert(pte.ppn * PAGE_SIZE <= MAX_PPN * PAGE_SIZE) by (nonlinear_arith)
            requires
                pte.ppn <= MAX_PPN,
        {}
        assert(MAX_PPN * PAGE_SIZE + PAGE_SIZE <= usize::MAX) by {
            assert(usize::MAX / PAGE_SIZE * PAGE_SIZE + usize::MAX % PAGE_SIZE == usize::MAX);
        }
    }
    pte.ppn * PAGE_SIZE + va % PAGE_SIZE
}

/// Read one word of stored physical memory; lets a caller observe what the
/// kernel wrote through a translated user pointer.
pub fn read_phys_word(k: &Kernel, pa: usize) -> (r: Option<usize>)
    ensures
        r == (if k.words().contains_key(pa) {
            Some(k.words()[pa])
        } else {
            None::<usize>
        }),
{
    k.mem.read_word(pa)
}

/// Resolve a virtual address through the running task's page table.
pub fn current_translate(k: &Kernel, va: usize) -> (r: Option<usize>)
    requires
        k.wf(),
        k.has_current(),
    ensures
        r == (if translatable(k.cur().unwrap().space, va) {
            Some(pa_spec(k.cur().unwrap().space, va))
        } else {
            None::<usize>
        }),
{
    let t = k.current.as_ref().unwrap();
    if t.space.translate(va / PAGE_SIZE).is_some() {
        Some(pa_of(&t.space, va))
    } else {
        None
    }
}

/// Write the current wall-clock reading, split into seconds and
/// microseconds, through the user pointer `ts`: each half is translated
/// separately, so a `TimeVal` straddling a page boundary is handled. A
/// pointer either half of which cannot be translated is fatal for the
/// calling task: nothing is written, the task is terminated with
/// `FAULT_EXIT_CODE`, the scheduler hands the processor on, and -1 is the
/// result the dead task never sees.
pub fn sys_get_time(k: &mut Kernel, ts: usize, _tz: usize) -> (r: isize)
    requires
        old(k).wf(),
        old(k).has_current(),
    ensures
        final(k).wf(),
        ({
            let s = old(k).cur().unwrap().space;
            let now = old(k).now();
            if ts <= usize::MAX - 8 && translatable(s, ts) && translatable(s, (ts + 8) as usize) {
                &&& r == 0
                &&& final(k).words() == old(k).words()
                        .insert(pa_spec(s, ts), now / 1_000_000)
                        .insert(pa_spec(s, (ts + 8) as usize), now % 1_000_000)
                &&& final(k).cur() == old(k).cur()
                &&& final(k).ready() == old(k).ready()
                &&& final(k).zoms() == old(k).zoms()
            } else {
                &&& r == -1
                &&& final(k).words() == old(k).words()
                &&& final(k).zoms() == old(k).zoms().push(
                        zombie_version(old(k).cur().unwrap(), FAULT_EXIT_CODE))
                &&& sched_post(old(k).ready(), old(k).now(), final(k).cur(), final(k).ready())
            }
        }),
        final(k).now() == old(k).now(),
        final(k).npid() == old(k).npid(),
        final(k).image_names() == old(k).image_names(),
{
    let ok = ts <= usize::MAX - 8 && {
        let t = k.current.as_ref().unwrap();
        t.space.translate(ts / PAGE_SIZE).is_some()
            && t.space.translate((ts + 8) / PAGE_SIZE).is_some()
    };
    if !ok {
        sys_exit(k, FAULT_EXIT_CODE);
        return -1;
    }
    let t = k.current.take().unwrap();
    let pa1 = pa_of(&t.space, ts);
    let pa2 = pa_of(&t.space, ts + 8);
    let tv = time_val_of_us(k.time_us);
    k.mem.write_word(pa1, tv.sec);
    k.mem.write_word(pa2, tv.usec);
    k.current = Some(t);
    0
}

/// Write the running task's status tag, its per-system-call counters and
/// its elapsed run time through the user pointer `ti`. Every stored word
/// is placed at the physical address its own virtual page resolves to, so
/// a record straddling a page boundary lands in the caller's frames on
/// both sides; as the record is shorter than a page, it spans at most two
/// pages, and checking the first and last word's pages covers every word.
/// A record that cannot be fully translated is fatal for the calling
/// task: nothing is written, the task is terminated with
/// `FAULT_EXIT_CODE`, the scheduler hands the processor on, and -1 is the
/// result the dead task never sees.
pub fn sys_task_info(k: &mut Kernel, ti: usize) -> (r: isize)
    requires
        old(k).wf(),
        old(k).has_current(),
    ensures
        final(k).wf(),
        ({
            let c = old(k).cur().unwrap();
            if ti <= usize::MAX - TASK_INFO_TIME_OFFSET && translatable(c.space, ti)
                && translatable(c.space, (ti + TASK_INFO_TIME_OFFSET) as usize) {
                &&& r == 0
                &&& final(k).words() == taskinfo_words(
                        old(k).words(),
                        c.space,
                        ti,
                        c,
                        old(k).now(),
                    )
                &&& final(k).cur() == old(k).cur()
                &&& final(k).ready() == old(k).ready()
                &&& final(k).zoms() == old(k).zoms()
            } else {
                &&& r == -1
                &&& final(k).words() == old(k).words()
                &&& final(k).zoms() == old(k).zoms().push(
                        zombie_version(c, FAULT_EXIT_CODE))
                &&& sched_post(old(k).ready(), old(k).now(), final(k).cur(), final(k).ready())
            }
        }),
        final(k).now() == old(k).now(),
        final(k).npid() == old(k).npid(),
        final(k).image_names() == old(k).image_names(),
{
    let ok = ti <= usize::MAX - TASK_INFO_TIME_OFFSET && {
        let t = k.current.as_ref().unwrap();
        t.space.translate(ti / PAGE_SIZE).is_some()
            && t.space.translate((ti + TASK_INFO_TIME_OFFSET) / PAGE_SIZE).is_some()
    };
    if !ok {
        sys_exit(k, FAULT_EXIT_CODE);
        return -1;
    }
    let t = k.current.take().unwrap();
    proof {
        // every word of the record lies on one of the two checked pages:
        // the record is shorter than a page, so the last word's page is at
        // most one past the first's, and any interior word's page is
        // wedged between them
        assert forall|off: usize| off <= TASK_INFO_TIME_OFFSET
            implies #[trigger] translatable(t.space, (ti + off) as usize) by {
            let x: usize = (ti + off) as usize;
            let hi: usize = (ti + TASK_INFO_TIME_OFFSET) as usize;
            assert(ti == PAGE_SIZE * (ti / PAGE_SIZE) + ti % PAGE_SIZE);
            assert(x == PAGE_SIZE * (x / PAGE_SIZE) + x % PAGE_SIZE);
            assert(hi == PAGE_SIZE * (hi / PAGE_SIZE) + hi % PAGE_SIZE);
            assert(ti / PAGE_SIZE <= x / PAGE_SIZE <= hi / PAGE_SIZE);
            assert(hi / PAGE_SIZE <= ti / PAGE_SIZE + 1);
            assert(x / PAGE_SIZE == ti / PAGE_SIZE || x / PAGE_SIZE == hi / PAGE_SIZE);
        }
    }
    let pa0 = pa_of(&t.space, ti);
    let now = k.time_us;
    let first = match t.first_scheduled_us {
        Some(f) => f,
        None => 0,
    };
    k.mem.write_word(pa0, 1);
    proof {
        assert(status_code(t.status) == 1);
    }
    let ghost m1 = old(k).words().insert(pa_spec(old(k).cur().unwrap().space, ti), 1usize);
    let mut i: usize = 0;
    while i < MAX_SYSCALL_NUM
        invariant
            0 <= i <= MAX_SYSCALL_NUM,
            t == old(k).cur().unwrap(),
            t.wf(),
            ti <= usize::MAX - TASK_INFO_TIME_OFFSET,
            forall|off: usize| off <= TASK_INFO_TIME_OFFSET
                ==> #[trigger] translatable(t.space, (ti + off) as usize),
            k.cur() is None,
            k.words() == write_times_va(m1, t.space, (ti + 8) as usize, t.syscall_times@, i as int),
            k.ready() == old(k).ready(),
            k.zoms() == old(k).zoms(),
            k.now() == old(k).now(),
            k.npid() == old(k).npid(),
            k.image_names() == old(k).image_names(),
        decreases MAX_SYSCALL_NUM - i,
    {
        let w = t.syscall_times[i];
        proof {
            assert(8 + 4 * i <= TASK_INFO_TIME_OFFSET);
            assert(translatable(t.space, (ti + (8 + 4 * i) as usize) as usize));
        }
        let pav = pa_of(&t.space, ti + 8 + 4 * i);
        k.mem.write_word(pav, w as usize);
        i = i + 1;
    }
    let elapsed = (now - first) / 1000;
    let pat = pa_of(&t.space, ti + TASK_INFO_TIME_OFFSET);
    k.mem.write_word(pat, elapsed);
    k.current = Some(t);
    0
}

/// The running task forks: the child gets a page-for-page copy of the
/// address space, default scheduling weights and a zeroed return-value
/// register, is recorded as a child of the caller, and is enqueued; the
/// parent receives the child's pid.
pub fn sys_fork(k: &mut Kernel) -> (r: isize)
    requires
        old(k).wf(),
        old(k).has_current(),
        old(k).npid() < MAX_PID,
    ensures
        final(k).wf(),
        r == old(k).npid() as isize,
        r >= 0,
        final(k).npid() == old(k).npid() + 1,
        ({
            let c0 = old(k).cur().unwrap();
            let c1 = final(k).cur().unwrap();
            final(k).cur() is Some
                && c1.children@ == c0.children@.push(old(k).npid())
                && c1 == (TaskControlBlock { children: c1.children, ..c0 })
        }),
        final(k).ready().len() == old(k).ready().len() + 1,
        forall|i: int| 0 <= i < old(k).ready().len()
            ==> final(k).ready()[i] == (#[trigger] old(k).ready()[i]),
        ({
            let child = final(k).ready().last();
            &&& child.pid == old(k).npid()
            &&& child.parent == Some(old(k).cur().unwrap().pid)
            &&& child.status == TaskStatus::Ready
            &&& child.prio == DEFAULT_PRIORITY
            &&& child.stride == 0
            &&& child.pass == BIG_STRIDE / DEFAULT_PRIORITY
            &&& child.exit_code == 0
            &&& child.children@ == Seq::<usize>::empty()
            &&& child.trap_cx.a0 == 0
            &&& child.first_scheduled_us is None
            &&& forall|i: int| 0 <= i < MAX_SYSCALL_NUM ==> child.syscall_times@[i] == 0
            &&& space_dup(old(k).cur().unwrap().space, child.space)
        }),
        final(k).zoms() == old(k).zoms(),
        final(k).words() == old(k).words(),
        final(k).now() == old(k).now(),
        final(k).image_names() == old(k).image_names(),
{
    let mut t = k.current.take().unwrap();
    let pid = k.next_pid;
    let child = t.fork(pid, &mut k.frames);
    k.next_pid = pid + 1;
    k.manager.add(child);
    k.current = Some(t);
    pid as isize
}

/// True when the two byte strings hold the same bytes.
fn bytes_eq(a: &Vec<u8>, b: &Vec<u8>) -> (r: bool)
    ensures
        r == (a@ == b@),
{
    if a.len() != b.len() {
        proof {
            assert(a@ != b@) by {
                assert(a@.len() != b@.len());
            }
        }
        return false;
    }
    let n = a.len();
    let mut i: usize = 0;
    while i < n
        invariant
            0 <= i <= n,
            n == a@.len() == b@.len(),
            forall|j: int| 0 <= j < i ==> a@[j] == b@[j],
        decreases n - i,
    {
        if a[i] != b[i] {
            proof {
                assert(a@[i as int] != b@[i as int]);
            }
            return false;
        }
        i = i + 1;
    }
    proof {
        assert(a@ =~= b@);
    }
    true
}

/// True when `path` names a registered program image.
pub open spec fn has_image(names: Seq<Vec<u8>>, path: Seq<u8>) -> bool {
    exists|i: int| 0 <= i < names.len() && (#[trigger] names[i])@ == path
}

impl Kernel {
    /// Look `path` up in the image catalog.
    fn find_image(&self, path: &Vec<u8>) -> (r: bool)
        ensures
            r == has_image(self.image_names(), path@),
    {
        let n = self.images.len();
        let mut i: usize = 0;
        while i < n
            invariant
                0 <= i <= n,
                n == self.image_names().len(),
                forall|j: int| 0 <= j < i ==> (#[trigger] self.image_names()[j])@ != path@,
            decreases n - i,
        {
            if bytes_eq(&self.images[i], path) {
                return true;
            }
            i = i + 1;
        }
        false
    }
}

/// Replace the running task's program image by the one `path` names:
/// a fresh address space and cleared trap state, everything else (pid,
/// family, scheduling, counters) preserved; -1 when no image has that
/// name, and then nothing changes.
pub fn sys_exec(k: &mut Kernel, path: &Vec<u8>) -> (r: isize)
    requires
        old(k).wf(),
        old(k).has_current(),
    ensures
        final(k).wf(),
        r == 0 || r == -1,
        (r == 0 <==> has_image(old(k).image_names(), path@)),
        ({
            let c0 = old(k).cur().unwrap();
            let c1 = final(k).cur().unwrap();
            final(k).cur() is Some
                && (r == -1 ==> c1 == c0)
                && (r == 0 ==> c1 == (TaskControlBlock { space: c1.space, trap_cx: c1.trap_cx, ..c0 })
                    && c1.space.pt() == Map::<usize, PageTableEntry>::empty()
                    && c1.space.area_seq() == Seq::<MapArea>::empty()
                    && c1.space.base() == USER_HEAP_BASE
                    && c1.space.brk() == USER_HEAP_BASE
                    && c1.trap_cx.a0 == 0)
        }),
        final(k).ready() == old(k).ready(),
        final(k).zoms() == old(k).zoms(),
        final(k).words() == old(k).words(),
        final(k).now() == old(k).now(),
        final(k).npid() == old(k).npid(),
        final(k).image_names() == old(k).image_names(),
{
    if !k.find_image(path) {
        return -1;
    }
    let mut t = k.current.take().unwrap();
    t.exec_image();
    k.current = Some(t);
    0
}

/// Spawn a fresh task from the image `path` names: unlike fork it copies
/// no memory; the new task is linked as a child of the caller and
/// enqueued. -1 when no image has that name, and then nothing changes.
pub fn sys_spawn(k: &mut Kernel, path: &Vec<u8>) -> (r: isize)
    requires
        old(k).wf(),
        old(k).has_current(),
        old(k).npid() < MAX_PID,
    ensures
        final(k).wf(),
        !has_image(old(k).image_names(), path@) ==> r == -1
            && final(k).cur() == old(k).cur() && final(k).ready() == old(k).ready()
            && final(k).npid() == old(k).npid(),
        has_image(old(k).image_names(), path@) ==> ({
            let c0 = old(k).cur().unwrap();
            let c1 = final(k).cur().unwrap();
            &&& r == old(k).npid() as isize
            &&& r >= 0
            &&& final(k).npid() == old(k).npid() + 1
            &&& final(k).cur() is Some
            &&& c1.children@ == c0.children@.push(old(k).npid())
            &&& c1 == (TaskControlBlock { children: c1.children, ..c0 })
            &&& final(k).ready().len() == old(k).ready().len() + 1
            &&& forall|i: int| 0 <= i < old(k).ready().len()
                    ==> final(k).ready()[i] == (#[trigger] old(k).ready()[i])
            &&& ({
                let child = final(k).ready().last();
                &&& child.pid == old(k).npid()
                &&& child.parent == Some(c0.pid)
                &&& child.status == TaskStatus::Ready
                &&& child.prio == DEFAULT_PRIORITY
                &&& child.stride == 0
                &&& child.exit_code == 0
                &&& child.children@ == Seq::<usize>::empty()
                &&& child.trap_cx.a0 == 0
                &&& child.first_scheduled_us is None
                &&& forall|i: int| 0 <= i < MAX_SYSCALL_NUM ==> child.syscall_times@[i] == 0
                &&& child.space.pt() == Map::<usize, PageTableEntry>::empty()
                &&& child.space.brk() == USER_HEAP_BASE
            })
        }),
        final(k).zoms() == old(k).zoms(),
        final(k).words() == old(k).words(),
        final(k).now() == old(k).now(),
        final(k).image_names() == old(k).image_names(),
{
    if !k.find_image(path) {
        return -1;
    }
    let mut t = k.current.take().unwrap();
    let pid = k.next_pid;
    let child = TaskControlBlock::new(pid, Some(t.pid));
    t.children.push(pid);
    k.next_pid = pid + 1;
    k.manager.add(child);
    k.current = Some(t);
    pid as isize
}

/// True when `p` is selected by the `waitpid` pid argument `sel`
/// (-1 selects any child).
pub open spec fn pid_sel_matches(sel: isize, p: usize) -> bool {
    sel == -1 || p == sel as usize
}

/// True when some zombie in `zs` has pid `p`.
pub open spec fn zombie_with_pid(zs: Seq<TaskControlBlock>, p: usize) -> bool {
    exists|i: int| 0 <= i < zs.len() && (#[trigger] zs[i]).pid == p
}

/// True when some recorded child pid is selected by `sel`.
pub open spec fn any_match(c: Seq<usize>, sel: isize) -> bool {
    exists|j: int| 0 <= j < c.len() && pid_sel_matches(sel, #[trigger] c[j])
}

/// Index in the children list `c` of the first selected child that has a
/// zombie waiting in `zs`; -1 when there is none.
pub open spec fn first_reapable(c: Seq<usize>, zs: Seq<TaskControlBlock>, sel: isize) -> int
    decreases c.len(),
{
    if c.len() == 0 {
        -1
    } else if pid_sel_matches(sel, c[0]) && zombie_with_pid(zs, c[0]) {
        0
    } else {
        let r = first_reapable(c.drop_first(), zs, sel);
        if r == -1 {
            -1
        } else {
            r + 1
        }
    }
}

/// Index in `zs` of the first zombie with pid `p`; -1 when there is none.
pub open spec fn zombie_idx(zs: Seq<TaskControlBlock>, p: usize) -> int
    decreases zs.len(),
{
    if zs.len() == 0 {
        -1
    } else if zs[0].pid == p {
        0
    } else {
        let r = zombie_idx(zs.drop_first(), p);
        if r == -1 {
            -1
        } else {
            r + 1
        }
    }
}

proof fn lemma_zombie_idx(zs: Seq<TaskControlBlock>, p: usize)
    ensures
        zombie_idx(zs, p) >= 0 <==> zombie_with_pid(zs, p),
        zombie_idx(zs, p) >= 0 ==> 0 <= zombie_idx(zs, p) < zs.len()
            && zs[zombie_idx(zs, p)].pid == p
            && (forall|j: int| 0 <= j < zombie_idx(zs, p) ==> (#[trigger] zs[j]).pid != p),
    decreases zs.len(),
{
    if zs.len() > 0 && zs[0].pid != p {
        lemma_zombie_idx(zs.drop_first(), p);
        let r = zombie_idx(zs.drop_first(), p);
        if zombie_with_pid(zs, p) {
            let i = choose|i: int| 0 <= i < zs.len() && (#[trigger] zs[i]).pid == p;
            assert(zs.drop_first()[i - 1] == zs[i]);
            assert(zombie_with_pid(zs.drop_first(), p));
        }
        if r >= 0 {
            assert(zs[r + 1] == zs.drop_first()[r]);
            assert forall|j: int| 0 <= j < r + 1 implies (#[trigger] zs[j]).pid != p by {
                if j > 0 {
                    assert(zs.drop_first()[j - 1] == zs[j]);
                }
            }
        }
    }
}

proof fn lemma_first_reapable_at(c: Seq<usize>, zs: Seq<TaskControlBlock>, sel: isize, i: int)
    requires
        0 <= i < c.len(),
        forall|j: int| 0 <= j < i
            ==> !(pid_sel_matches(sel, #[trigger] c[j]) && zombie_with_pid(zs, c[j])),
        pid_sel_matches(sel, c[i]),
        zombie_with_pid(zs, c[i]),
    ensures
        first_reapable(c, zs, sel) == i,
    decreases i,
{
    if i > 0 {
        assert(!(pid_sel_matches(sel, c[0]) && zombie_with_pid(zs, c[0])));
        assert forall|j: int| 0 <= j < i - 1
            implies !(pid_sel_matches(sel, #[trigger] c.drop_first()[j])
                && zombie_with_pid(zs, c.drop_first()[j])) by {
            assert(c.drop_first()[j] == c[j + 1]);
        }
        assert(c.drop_first()[i - 1] == c[i]);
        lemma_first_reapable_at(c.drop_first(), zs, sel, i - 1);
    }
}

proof fn lemma_first_reapable_none(c: Seq<usize>, zs: Seq<TaskControlBlock>, sel: isize)
    requires
        forall|j: int| 0 <= j < c.len()
            ==> !(pid_sel_matches(sel, #[trigger] c[j]) && zombie_with_pid(zs, c[j])),
    ensures
        first_reapable(c, zs, sel) == -1,
    decreases c.len(),
{
    if c.len() > 0 {
        assert forall|j: int| 0 <= j < c.drop_first().len()
            implies !(pid_sel_matches(sel, #[trigger] c.drop_first()[j])
                && zombie_with_pid(zs, c.drop_first()[j])) by {
            assert(c.drop_first()[j] == c[j + 1]);
        }
        lemma_first_reapable_none(c.drop_first(), zs, sel);
    }
}

/// Wait for a child to exit. With `pid` -1 any child is eligible,
/// otherwise only the child with that pid. No eligible child recorded:
/// -1. Eligible children but none yet a zombie: -2, the polling caller
/// retries. Otherwise the first eligible zombie child (in creation order)
/// is reaped: it leaves the children list and the zombie store, its exit
/// code is written through the translated `exit_code_ptr`, and its pid
/// comes back — unless `exit_code_ptr`'s page is unmapped, which is fatal
/// for the calling task: nothing is reaped or written, the caller is
/// terminated with `FAULT_EXIT_CODE`, and the scheduler hands the
/// processor on.
pub fn sys_waitpid(k: &mut Kernel, pid: isize, exit_code_ptr: usize) -> (r: isize)
    requires
        old(k).wf(),
        old(k).has_current(),
        pid == -1 || pid >= 0,
    ensures
        final(k).wf(),
        ({
            let c0 = old(k).cur().unwrap();
            let ch = c0.children@;
            let ri = first_reapable(ch, old(k).zoms(), pid);
            &&& (!any_match(ch, pid) ==> r == -1
                    && final(k).cur() == old(k).cur()
                    && final(k).zoms() == old(k).zoms()
                    && final(k).words() == old(k).words()
                    && final(k).ready() == old(k).ready())
            &&& (any_match(ch, pid) && ri == -1 ==> r == -2
                    && final(k).cur() == old(k).cur()
                    && final(k).zoms() == old(k).zoms()
                    && final(k).words() == old(k).words()
                    && final(k).ready() == old(k).ready())
            &&& (ri >= 0 && translatable(c0.space, exit_code_ptr) ==> ({
                let p = ch[ri];
                let zi = zombie_idx(old(k).zoms(), p);
                let c1 = final(k).cur().unwrap();
                &&& r == p as isize
                &&& r >= 0
                &&& final(k).cur() is Some
                &&& c1.children@ == ch.remove(ri)
                &&& c1 == (TaskControlBlock { children: c1.children, ..c0 })
                &&& 0 <= zi < old(k).zoms().len()
                &&& final(k).zoms() == old(k).zoms().remove(zi)
                &&& final(k).words() == old(k).words().insert(
                    pa_spec(c0.space, exit_code_ptr),
                    old(k).zoms()[zi].exit_code as usize,
                )
                &&& final(k).ready() == old(k).ready()
            }))
            &&& (ri >= 0 && !translatable(c0.space, exit_code_ptr) ==> ({
                &&& r == -1
                &&& final(k).words() == old(k).words()
                &&& final(k).zoms() == old(k).zoms().push(
                        zombie_version(c0, FAULT_EXIT_CODE))
                &&& sched_post(old(k).ready(), old(k).now(), final(k).cur(), final(k).ready())
            }))
        }),
        final(k).now() == old(k).now(),
        final(k).npid() == old(k).npid(),
        final(k).image_names() == old(k).image_names(),
{
    let mut t = k.current.take().unwrap();
    let ghost ch = t.children@;
    let ghost zs = k.zoms();
    let n = t.children.len();
    let mut i: usize = 0;
    let mut any = false;
    while i < n
        invariant
            0 <= i <= n,
            n == ch.len(),
            old(k).wf(),
            old(k).has_current(),
            t == old(k).cur().unwrap(),
            t.wf(),
            ch == t.children@,
            zs == k.zoms(),
            pid == -1 || pid >= 0,
            k.cur() is None,
            k.ready() == old(k).ready(),
            k.zoms() == old(k).zoms(),
            k.words() == old(k).words(),
            k.now() == old(k).now(),
            k.npid() == old(k).npid(),
            k.image_names() == old(k).image_names(),
            any == any_match(ch.take(i as int), pid),
            forall|j: int| 0 <= j < i
                ==> !(pid_sel_matches(pid, #[trigger] ch[j]) && zombie_with_pid(zs, ch[j])),
        decreases n - i,
    {
        let p = t.children[i];
        let selected = pid == -1 || p == pid as usize;
        proof {
            assert(selected == pid_sel_matches(pid, ch[i as int]));
        }
        if selected {
            any = true;
            proof {
                assert(any_match(ch.take(i + 1), pid)) by {
                    assert(ch.take(i + 1)[i as int] == ch[i as int]);
                }
            }
            // scan the zombie store for this pid
            let zn = k.zombies.len();
            let mut zi: usize = 0;
            let mut found = false;
            while zi < zn && !found
                invariant
                    0 <= zi <= zn,
                    zn == zs.len(),
                    zs == k.zoms(),
                    forall|j: int| 0 <= j < zi ==> (#[trigger] zs[j]).pid != p,
                    found ==> zi < zn && zs[zi as int].pid == p,
                decreases zn - zi + (if found { 0int } else { 1int }),
            {
                if k.zombies[zi].pid == p {
                    found = true;
                } else {
                    zi = zi + 1;
                }
            }
            if found {
                proof {
                    lemma_zombie_idx(zs, p);
                    assert(zombie_with_pid(zs, p)) by {
                        assert(zs[zi as int].pid == p);
                    }
                    lemma_first_reapable_at(ch, zs, pid, i as int);
                    assert(zombie_idx(zs, p) == zi as int);
                }
                if t.space.translate(exit_code_ptr / PAGE_SIZE).is_none() {
                    // the pointer the caller handed in cannot be resolved:
                    // fatal, so the caller is terminated with nothing reaped
                    proof {
                        assert forall|j: int| 0 <= j < k.ready().len()
                            implies (#[trigger] k.ready()[j]).wf()
                                && k.ready()[j].status == TaskStatus::Ready
                                && (k.ready()[j].first_scheduled_us matches Some(f)
                                    ==> f <= k.now()) by {
                            assert(k.ready()[j] == old(k).ready()[j]);
                            assert((old(k).ready()[j]).wf());
                        }
                        assert forall|j: int| 0 <= j < k.zoms().len()
                            implies (#[trigger] k.zoms()[j]).wf()
                                && k.zoms()[j].status == TaskStatus::Zombie by {
                            assert(k.zoms()[j] == old(k).zoms()[j]);
                            assert((old(k).zoms()[j]).wf());
                        }
                    }
                    k.current = Some(t);
                    proof {
                        assert(k.wf());
                    }
                    sys_exit(k, FAULT_EXIT_CODE);
                    return -1;
                }
                let z = k.zombies.remove(zi);
                proof {
                    assert forall|j: int| 0 <= j < k.zoms().len()
                        implies (#[trigger] k.zoms()[j]).wf()
                            && k.zoms()[j].status == TaskStatus::Zombie by {
                        if j < zi {
                            assert(k.zoms()[j] == zs[j]);
                            assert(zs[j] == old(k).zoms()[j]);
                            assert((old(k).zoms()[j]).wf());
                        } else {
                            assert(k.zoms()[j] == zs[j + 1]);
                            assert(zs[j + 1] == old(k).zoms()[j + 1]);
                            assert((old(k).zoms()[j + 1]).wf());
                        }
                    }
                }
                t.children.remove(i);
                let pa = pa_of(&t.space, exit_code_ptr);
                #[verifier::truncate]
                let code_word = z.exit_code as usize;
                k.mem.write_word(pa, code_word);
                proof {
                    assert(t.wf());
                    assert forall|j: int| 0 <= j < k.ready().len()
                        implies (#[trigger] k.ready()[j]).wf()
                            && k.ready()[j].status == TaskStatus::Ready
                            && (k.ready()[j].first_scheduled_us matches Some(f)
                                ==> f <= k.now()) by {
                        assert(k.ready()[j] == old(k).ready()[j]);
                        assert((old(k).ready()[j]).wf());
                    }
                }
                k.current = Some(t);
                proof {
                    assert(p <= MAX_PID);
                }
                return p as isize;
            }
            proof {
                assert(!zombie_with_pid(zs, p)) by {
                    if zombie_with_pid(zs, p) {
                        let w = choose|w: int| 0 <= w < zs.len() && (#[trigger] zs[w]).pid == p;
                        assert(zs[w].pid != p);
                    }
                }
            }
        } else {
            proof {
                assert(any_match(ch.take(i + 1), pid) == any_match(ch.take(i as int), pid)) by {
                    if any_match(ch.take(i + 1), pid) {
                        let j = choose|j: int|
                            0 <= j < ch.take(i + 1).len()
                                && pid_sel_matches(pid, #[trigger] ch.take(i + 1)[j]);
                        if j < i {
                            assert(ch.take(i as int)[j] == ch.take(i + 1)[j]);
                        } else {
                            assert(ch.take(i + 1)[j] == ch[i as int]);
                        }
                    }
                    if any_match(ch.take(i as int), pid) {
                        let j = choose|j: int|
                            0 <= j < ch.take(i as int).len()
                                && pid_sel_matches(pid, #[trigger] ch.take(i as int)[j]);
                        assert(ch.take(i + 1)[j] == ch.take(i as int)[j]);
                    }
                }
            }
        }
        i = i + 1;
    }
    proof {
        assert(ch.take(n as int) =~= ch);
        lemma_first_reapable_none(ch, zs, pid);
    }
    k.current = Some(t);
    if any {
        -2
    } else {
        -1
    }
}

/// The running task's scheduling parameters: priority, pass, and stride.
pub fn current_sched(k: &Kernel) -> (r: (usize, usize, usize))
    requires
        k.wf(),
        k.has_current(),
    ensures
        r.0 == k.cur().unwrap().prio,
        r.1 == k.cur().unwrap().pass,
        r.2 == k.cur().unwrap().stride,
{
    let t = k.current.as_ref().unwrap();
    (t.prio, t.pass, t.stride)
}

/// The `TaskInfo` record of the running task, as `task_info` reports it.
pub fn current_task_info(k: &Kernel) -> (ti: TaskInfo)
    requires
        k.wf(),
        k.has_current(),
    ensures
        ti.status == k.cur().unwrap().status,
        ti.syscall_times@ == k.cur().unwrap().syscall_times@,
        ti.time == elapsed_ms(k.cur().unwrap(), k.now()),
{
    let t = k.current.as_ref().unwrap();
    let n = t.syscall_times.len();
    let mut times: Vec<u32> = Vec::new();
    let mut i: usize = 0;
    while i < n
        invariant
            0 <= i <= n,
            n == t.syscall_times@.len(),
            times@ == t.syscall_times@.take(i as int),
        decreases n - i,
    {
        times.push(t.syscall_times[i]);
        proof {
            assert(times@ =~= t.syscall_times@.take(i + 1));
        }
        i = i + 1;
    }
    proof {
        assert(t.syscall_times@.take(n as int) =~= t.syscall_times@);
    }
    let first = match t.first_scheduled_us {
        Some(f) => f,
        None => 0,
    };
    TaskInfo { status: t.status, syscall_times: times, time: (k.time_us - first) / 1000 }
}

/// A parent with exactly one recorded child, none of whose pids has a
/// zombie waiting, is told to poll again: under these facts
/// `sys_waitpid(-1, ..)`'s contract forces the distinguished -2 answer
/// and no state change. This is the position a parent is in right after
/// `fork` or `spawn`, before the child has run to exit.
pub proof fn lemma_one_live_child_polls(ch: Seq<usize>, zs: Seq<TaskControlBlock>)
    requires
        ch.len() == 1,
        forall|i: int| 0 <= i < zs.len() ==> (#[trigger] zs[i]).pid != ch[0],
    ensures
        any_match(ch, -1isize),
        first_reapable(ch, zs, -1isize) == -1,
{
    assert(pid_sel_matches(-1isize, ch[0]));
    assert(any_match(ch, -1isize));
    assert(!zombie_with_pid(zs, ch[0])) by {
        if zombie_with_pid(zs, ch[0]) {
            let w = choose|w: int| 0 <= w < zs.len() && (#[trigger] zs[w]).pid == ch[0];
            assert(zs[w].pid != ch[0]);
        }
    }
    assert(ch.drop_first() =~= Seq::<usize>::empty());
    assert(first_reapable(Seq::<usize>::empty(), zs, -1isize) == -1);
}

/// Once the only child has exited and sits in the zombie store, the same
/// `sys_waitpid` contract forces a reap: the first reapable child is that
/// child, so — provided the exit-code pointer's page translates — the call
/// returns the child's pid and writes its stored exit code through the
/// translated pointer.
pub proof fn lemma_exited_child_reaped(ch: Seq<usize>, zs: Seq<TaskControlBlock>)
    requires
        ch.len() == 1,
        zombie_with_pid(zs, ch[0]),
    ensures
        first_reapable(ch, zs, -1isize) == 0,
{
    assert(pid_sel_matches(-1isize, ch[0]));
}

} // verus!
