//! Stride scheduler: a ready collection of tasks from which the task with
//! the least accumulated stride is fetched next, ties going to the
//! strictly higher priority.

use vstd::prelude::*;
use crate::task::TaskControlBlock;

verus! {

/// The queue holding every task that is ready to run.
pub struct TaskManager {
    ready_queue: Vec<TaskControlBlock>,
}

/// Addition that sticks at the largest representable value instead of
/// wrapping: the policy chosen for a stride that would overflow.
pub open spec fn sat_add(a: usize, b: usize) -> usize {
    if a + b <= usize::MAX {
        (a + b) as usize
    } else {
        usize::MAX
    }
}

/// A task as it leaves the scheduler: its stride advanced by its own pass.
pub open spec fn advanced(t: TaskControlBlock) -> TaskControlBlock {
    TaskControlBlock { stride: sat_add(t.stride, t.pass), ..t }
}

/// The index the selection scan settles on, given the best index found so
/// far and the next position to look at: a later task displaces the
/// current best if its stride is strictly smaller, or equal with a
/// strictly greater priority.
pub open spec fn pick_from(s: Seq<TaskControlBlock>, best: int, i: int) -> int
    decreases s.len() - i,
{
    if i < 0 || i >= s.len() {
        best
    } else {
        let b = if s[i].stride == s[best].stride && s[i].prio > s[best].prio {
            i
        } else if s[i].stride < s[best].stride {
            i
        } else {
            best
        };
        pick_from(s, b, i + 1)
    }
}

/// The index of the task a fetch removes from a non-empty queue.
pub open spec fn pick_idx(s: Seq<TaskControlBlock>) -> int {
    pick_from(s, 0, 1)
}

/// Full contract of a fetch: an empty queue yields nothing and stays
/// empty; otherwise the task at `pick_idx` leaves the queue with its
/// stride advanced by its pass, and its stride was minimal.
pub open spec fn fetch_post(
    q0: Seq<TaskControlBlock>,
    q1: Seq<TaskControlBlock>,
    r: Option<TaskControlBlock>,
) -> bool {
    if q0.len() == 0 {
        r is None && q1 == q0
    } else {
        let i = pick_idx(q0);
        &&& 0 <= i < q0.len()
        &&& r == Some(advanced(q0[i]))
        &&& q1 == q0.remove(i)
        &&& forall|j: int| 0 <= j < q0.len() ==> q0[i].stride <= (#[trigger] q0[j]).stride
    }
}

impl TaskManager {
    /// The queued tasks, in queue order.
    pub closed spec fn tasks(&self) -> Seq<TaskControlBlock> {
        self.ready_queue@
    }

    /// An empty ready queue.
    pub fn new() -> (m: TaskManager)
        ensures
            m.tasks() == Seq::<TaskControlBlock>::empty(),
    {
        let m = TaskManager { ready_queue: Vec::new() };
        proof {
            assert(m.tasks() =~= Seq::<TaskControlBlock>::empty());
        }
        m
    }

    /// Append a task to the ready queue.
    pub fn add(&mut self, task: TaskControlBlock)
        ensures
            final(self).tasks() == old(self).tasks().push(task),
    {
        self.ready_queue.push(task);
    }

    /// Remove and return the ready task with the least stride (ties to the
    /// strictly greater priority), advancing its stride by its pass; an
    /// empty queue yields nothing and is left untouched.
    pub fn fetch(&mut self) -> (r: Option<TaskControlBlock>)
        ensures
            fetch_post(old(self).tasks(), final(self).tasks(), r),
    {
        let n = self.ready_queue.len();
        if n == 0 {
            return None;
        }
        let ghost q = self.tasks();
        let mut index: usize = 0;
        let mut i: usize = 1;
        while i < n
            invariant
                1 <= i <= n,
                0 <= index < i,
                n == self.tasks().len(),
                self.tasks() == q,
                pick_idx(q) == pick_from(q, index as int, i as int),
                forall|j: int| 0 <= j < i ==> q[index as int].stride <= (#[trigger] q[j]).stride,
            decreases n - i,
        {
            let cand_stride = self.ready_queue[i].stride;
            let cand_prio = self.ready_queue[i].prio;
            let best_stride = self.ready_queue[index].stride;
            let best_prio = self.ready_queue[index].prio;
            if cand_stride == best_stride && cand_prio > best_prio {
                index = i;
            } else if cand_stride < best_stride {
                index = i;
            }
            i = i + 1;
        }
        proof {
            assert(pick_from(q, index as int, n as int) == index as int);
            assert(pick_idx(q) == index as int);
        }
        let mut t = self.ready_queue.remove(index);
        let stride = t.stride;
        let pass = t.pass;
        t.stride = if stride <= usize::MAX - pass {
            stride + pass
        } else {
            usize::MAX
        };
        proof {
            assert(t == advanced(q[index as int]));
        }
        Some(t)
    }
}

/// Append a task to the ready queue.
pub fn add_task(manager: &mut TaskManager, task: TaskControlBlock)
    ensures
        final(manager).tasks() == old(manager).tasks().push(task),
{
    manager.add(task);
}

/// Take the next task out of the ready queue, as `TaskManager::fetch`.
pub fn fetch_task(manager: &mut TaskManager) -> (r: Option<TaskControlBlock>)
    ensures
        fetch_post(old(manager).tasks(), final(manager).tasks(), r),
{
    manager.fetch()
}

/// Fetching from an empty ready collection yields nothing and changes
/// nothing, however often it is repeated: here stated for two consecutive
/// fetches from an empty queue.
pub proof fn lemma_fetch_empty_idempotent(
    q0: Seq<TaskControlBlock>,
    q1: Seq<TaskControlBlock>,
    q2: Seq<TaskControlBlock>,
    r1: Option<TaskControlBlock>,
    r2: Option<TaskControlBlock>,
)
    requires
        q0.len() == 0,
        fetch_post(q0, q1, r1),
        fetch_post(q1, q2, r2),
    ensures
        r1 is None,
        r2 is None,
        q1 == q0,
        q2 == q0,
{
}

/// How `fetch` chooses between exactly two queued tasks: the first stays
/// selected unless the second has a strictly smaller stride, or an equal
/// stride with a strictly greater priority.
pub proof fn lemma_pick_two(a: TaskControlBlock, b: TaskControlBlock)
    ensures
        pick_idx(seq![a, b]) == (if a.stride < b.stride
            || (a.stride == b.stride && b.prio <= a.prio) {
            0int
        } else {
            1int
        }),
{
    let s = seq![a, b];
    assert(s[0] == a && s[1] == b && s.len() == 2);
    reveal_with_fuel(pick_from, 3);
}

/// Number of rounds in which the first task was selected.
pub open spec fn count_true(sel: Seq<bool>) -> int
    decreases sel.len(),
{
    if sel.len() == 0 {
        0
    } else {
        count_true(sel.drop_last()) + if sel.last() {
            1int
        } else {
            0int
        }
    }
}

/// A record of rounds of stride scheduling over two tasks that start from
/// the common stride `e`, have passes `q1` and `q2` and priorities `prio1`
/// and `prio2`, and are re-added after every selection: round `i` selects
/// the first task exactly when the scheduler's two-task rule
/// (`lemma_pick_two`) picks it on the strides accumulated so far.
pub open spec fn valid_two_task_run(
    sel: Seq<bool>,
    e: int,
    q1: int,
    prio1: int,
    q2: int,
    prio2: int,
) -> bool {
    forall|i: int| 0 <= i < sel.len() ==> (#[trigger] sel[i]) == ({
        let n1 = count_true(sel.take(i));
        let n2 = i - n1;
        let s1 = e + n1 * q1;
        let s2 = e + n2 * q2;
        s1 < s2 || (s1 == s2 && prio2 <= prio1)
    })
}

proof fn lemma_count_true_bounds(sel: Seq<bool>)
    ensures
        0 <= count_true(sel) <= sel.len(),
    decreases sel.len(),
{
    if sel.len() > 0 {
        lemma_count_true_bounds(sel.drop_last());
    }
}

proof fn lemma_valid_run_prefix(
    sel: Seq<bool>,
    e: int,
    q1: int,
    prio1: int,
    q2: int,
    prio2: int,
)
    requires
        sel.len() > 0,
        valid_two_task_run(sel, e, q1, prio1, q2, prio2),
    ensures
        valid_two_task_run(sel.drop_last(), e, q1, prio1, q2, prio2),
{
    let pre = sel.drop_last();
    assert forall|i: int| 0 <= i < pre.len() implies (#[trigger] pre[i]) == ({
        let n1 = count_true(pre.take(i));
        let n2 = i - n1;
        let s1 = e + n1 * q1;
        let s2 = e + n2 * q2;
        s1 < s2 || (s1 == s2 && prio2 <= prio1)
    }) by {
        assert(pre.take(i) =~= sel.take(i));
        assert(pre[i] == sel[i]);
    }
}

/// Stride fairness: over every run of rounds from a common initial
/// stride, the two weighted selection counts stay within one pass of each
/// other — `n1 * q1 <= n2 * q2 + q1` and `n2 * q2 <= n1 * q1 + q2` — so
/// each task is selected in inverse proportion to its pass, that is, in
/// proportion to its priority.
#[verifier::spinoff_prover]
#[verifier::rlimit(60)]
pub proof fn lemma_stride_proportionality(
    sel: Seq<bool>,
    e: int,
    q1: int,
    prio1: int,
    q2: int,
    prio2: int,
)
    requires
        q1 >= 1,
        q2 >= 1,
        valid_two_task_run(sel, e, q1, prio1, q2, prio2),
    ensures
        ({
            let n1 = count_true(sel);
            let n2 = sel.len() - n1;
            n1 * q1 <= n2 * q2 + q1 && n2 * q2 <= n1 * q1 + q2
        }),
    decreases sel.len(),
{
    if sel.len() == 0 {
        assert(count_true(sel) == 0);
        assert(0int * q1 == 0 && 0int * q2 == 0) by (nonlinear_arith);
    } else {
        let pre = sel.drop_last();
        let i = sel.len() - 1;
        lemma_valid_run_prefix(sel, e, q1, prio1, q2, prio2);
        lemma_stride_proportionality(pre, e, q1, prio1, q2, prio2);
        lemma_count_true_bounds(pre);
        let n1 = count_true(pre);
        let n2 = i - n1;
        assert(sel.take(i) =~= pre);
        assert(count_true(sel) == n1 + if sel.last() { 1int } else { 0int });
        assert(sel[i] == ({
            let s1 = e + n1 * q1;
            let s2 = e + n2 * q2;
            s1 < s2 || (s1 == s2 && prio2 <= prio1)
        }));
        let n1f = count_true(sel);
        let n2f = sel.len() - n1f;
        if sel.last() {
            assert(e + n1 * q1 <= e + n2 * q2);
            assert((n1 + 1) * q1 == n1 * q1 + q1) by (nonlinear_arith);
            assert(n1f == n1 + 1 && n2f == n2);
            assert(n1f * q1 == n1 * q1 + q1);
            assert(n1f * q1 <= n2f * q2 + q1);
            assert(n2f * q2 <= n1 * q1 + q2);
            assert(n2f * q2 <= n1f * q1 + q2);
        } else {
            assert(e + n2 * q2 <= e + n1 * q1);
            assert((n2 + 1) * q2 == n2 * q2 + q2) by (nonlinear_arith);
            assert(n1f == n1 && n2f == n2 + 1);
            assert(n2f * q2 == n2 * q2 + q2);
            assert(n2f * q2 <= n1f * q1 + q2);
            assert(n1f * q1 <= n2 * q2 + q1);
            assert(n1f * q1 <= n2f * q2 + q1) by {
                assert(n2 * q2 <= n2f * q2);
            }
        }
    }
}

/// With strictly lower priority comes a strictly larger pass, and then
/// the other task is selected at least as often, in every run from a
/// common initial stride: the higher-priority task never falls behind.
pub proof fn lemma_higher_priority_runs_at_least_as_often(
    sel: Seq<bool>,
    e: int,
    q1: int,
    prio1: int,
    q2: int,
    prio2: int,
)
    requires
        q1 > q2 >= 1,
        prio1 < prio2,
        valid_two_task_run(sel, e, q1, prio1, q2, prio2),
    ensures
        count_true(sel) <= sel.len() - count_true(sel),
    decreases sel.len(),
{
    if sel.len() > 0 {
        let pre = sel.drop_last();
        let i = sel.len() - 1;
        lemma_valid_run_prefix(sel, e, q1, prio1, q2, prio2);
        lemma_higher_priority_runs_at_least_as_often(pre, e, q1, prio1, q2, prio2);
        lemma_count_true_bounds(pre);
        let n1 = count_true(pre);
        let n2 = i - n1;
        assert(sel.take(i) =~= pre);
        assert(sel[i] == ({
            let s1 = e + n1 * q1;
            let s2 = e + n2 * q2;
            s1 < s2 || (s1 == s2 && prio2 <= prio1)
        }));
        if sel.last() {
            // a strictly smaller accumulated stride was needed, so the
            // first task was strictly behind in selections
            assert(e + n1 * q1 < e + n2 * q2);
            assert(n2 * q2 <= n2 * q1) by (nonlinear_arith)
                requires
                    n2 >= 0,
                    q2 <= q1,
            {}
            assert(n1 * q1 < n2 * q1);
            assert(n1 < n2) by (nonlinear_arith)
                requires
                    n1 * q1 < n2 * q1,
                    q1 >= 1,
            {}
        }
    }
}

/// One full scheduling round on a queue, composed from the contracts of
/// `fetch` and `add`: the task at `pick_idx` leaves with its stride
/// advanced and is appended again at the back.
pub open spec fn sched_round(q0: Seq<TaskControlBlock>, q1: Seq<TaskControlBlock>, t: TaskControlBlock) -> bool {
    &&& q0.len() > 0
    &&& t == advanced(q0[pick_idx(q0)])
    &&& q1 == q0.remove(pick_idx(q0)).push(t)
}

/// `t` with its stride replaced.
pub open spec fn with_stride(t: TaskControlBlock, s: int) -> TaskControlBlock {
    TaskControlBlock { stride: s as usize, ..t }
}

/// The shape a two-task queue keeps across rounds: it always holds the
/// two original tasks, in some order, each carrying the stride its own
/// selection count dictates.
pub open spec fn chain_state(
    a: TaskControlBlock,
    b: TaskControlBlock,
    q: Seq<TaskControlBlock>,
    n_a: int,
    n_b: int,
) -> bool {
    let sa = a.stride + n_a * a.pass;
    let sb = b.stride + n_b * b.pass;
    &&& 0 <= sa <= usize::MAX
    &&& 0 <= sb <= usize::MAX
    &&& q.len() == 2
    &&& ((q[0] == with_stride(a, sa) && q[1] == with_stride(b, sb))
        || (q[0] == with_stride(b, sb) && q[1] == with_stride(a, sa)))
}

/// How many of the fetched tasks carry pid `pid`.
pub open spec fn times_picked(picks: Seq<TaskControlBlock>, pid: usize) -> int
    decreases picks.len(),
{
    if picks.len() == 0 {
        0
    } else {
        times_picked(picks.drop_last(), pid) + if picks.last().pid == pid {
            1int
        } else {
            0int
        }
    }
}

/// A run of the real scheduler over exactly two tasks: `tr` is the queue
/// before and after each round, `picks` the fetched tasks; the two tasks
/// start from a common stride, the second has the strictly greater
/// priority (hence the strictly smaller pass), and the run is short
/// enough that no stride saturates.
pub open spec fn two_task_chain(
    a: TaskControlBlock,
    b: TaskControlBlock,
    tr: Seq<Seq<TaskControlBlock>>,
    picks: Seq<TaskControlBlock>,
) -> bool {
    &&& a.stride == b.stride
    &&& a.prio < b.prio
    &&& a.pass > b.pass >= 1
    &&& a.pid != b.pid
    &&& tr.len() == picks.len() + 1
    &&& tr[0] == seq![a, b]
    &&& forall|i: int| 0 <= i < picks.len() ==> sched_round(#[trigger] tr[i], tr[i + 1], picks[i])
    &&& a.stride + picks.len() * a.pass <= usize::MAX
}

#[verifier::spinoff_prover]
#[verifier::rlimit(100)]
proof fn lemma_chain_round(
    a: TaskControlBlock,
    b: TaskControlBlock,
    q: Seq<TaskControlBlock>,
    q1: Seq<TaskControlBlock>,
    t: TaskControlBlock,
    n_a: int,
    n_b: int,
)
    requires
        a.prio < b.prio,
        a.pass > b.pass >= 1,
        a.pid != b.pid,
        0 <= n_a,
        0 <= n_b,
        chain_state(a, b, q, n_a, n_b),
        sched_round(q, q1, t),
        a.stride + (n_a + 1) * a.pass <= usize::MAX,
        b.stride + (n_b + 1) * b.pass <= usize::MAX,
    ensures
        (t.pid == a.pid) == (a.stride + n_a * a.pass < b.stride + n_b * b.pass
            || (a.stride + n_a * a.pass == b.stride + n_b * b.pass && b.prio <= a.prio)),
        t.pid == a.pid ==> chain_state(a, b, q1, n_a + 1, n_b),
        t.pid != a.pid ==> t.pid == b.pid && chain_state(a, b, q1, n_a, n_b + 1),
{
    let sa = a.stride + n_a * a.pass;
    let sb = b.stride + n_b * b.pass;
    let av = with_stride(a, sa);
    let bv = with_stride(b, sb);
    assert((n_a + 1) * a.pass == n_a * a.pass + a.pass) by (nonlinear_arith);
    assert((n_b + 1) * b.pass == n_b * b.pass + b.pass) by (nonlinear_arith);
    assert(av.stride == sa && bv.stride == sb);
    assert(advanced(av) == with_stride(a, sa + a.pass)) by {
        assert(sat_add(av.stride, av.pass) == sa + a.pass);
    }
    assert(advanced(bv) == with_stride(b, sb + b.pass)) by {
        assert(sat_add(bv.stride, bv.pass) == sb + b.pass);
    }
    if q[0] == av && q[1] == bv {
        assert(q =~= seq![av, bv]);
        lemma_pick_two(av, bv);
        if sa < sb || (sa == sb && b.prio <= a.prio) {
            assert(pick_idx(q) == 0);
            assert(t == advanced(av));
            assert(q.remove(0) =~= seq![bv]);
            assert(q1[0] == bv && q1[1] == t && q1.len() == 2);
            assert(chain_state(a, b, q1, n_a + 1, n_b));
        } else {
            assert(pick_idx(q) == 1);
            assert(t == advanced(bv));
            assert(q.remove(1) =~= seq![av]);
            assert(q1[0] == av && q1[1] == t && q1.len() == 2);
            assert(chain_state(a, b, q1, n_a, n_b + 1));
        }
    } else {
        assert(q[0] == bv && q[1] == av);
        assert(q =~= seq![bv, av]);
        lemma_pick_two(bv, av);
        if sb < sa || (sb == sa && a.prio <= b.prio) {
            assert(pick_idx(q) == 0);
            assert(t == advanced(bv));
            assert(q.remove(0) =~= seq![av]);
            assert(q1[0] == av && q1[1] == t && q1.len() == 2);
            assert(chain_state(a, b, q1, n_a, n_b + 1));
            // the tie goes to b, whose priority is strictly greater
            assert(!(sa < sb || (sa == sb && b.prio <= a.prio)));
        } else {
            assert(pick_idx(q) == 1);
            assert(t == advanced(av));
            assert(q.remove(1) =~= seq![bv]);
            assert(q1[0] == bv && q1[1] == t && q1.len() == 2);
            assert(chain_state(a, b, q1, n_a + 1, n_b));
            assert(sa < sb);
        }
    }
}

#[verifier::spinoff_prover]
#[verifier::rlimit(100)]
proof fn lemma_chain_state(
    a: TaskControlBlock,
    b: TaskControlBlock,
    tr: Seq<Seq<TaskControlBlock>>,
    picks: Seq<TaskControlBlock>,
    sel: Seq<bool>,
    k: int,
)
    requires
        two_task_chain(a, b, tr, picks),
        sel.len() == picks.len(),
        forall|i: int| 0 <= i < picks.len() ==> (#[trigger] sel[i]) == (picks[i].pid == a.pid),
        0 <= k <= picks.len(),
    ensures
        chain_state(a, b, tr[k], count_true(sel.take(k)), k - count_true(sel.take(k))),
        valid_two_task_run(
            sel.take(k),
            a.stride as int,
            a.pass as int,
            a.prio as int,
            b.pass as int,
            b.prio as int,
        ),
        forall|i: int| 0 <= i < k
            ==> (#[trigger] picks[i]).pid == a.pid || picks[i].pid == b.pid,
    decreases k,
{
    lemma_count_true_bounds(sel.take(k));
    let len = picks.len() as int;
    if k == 0 {
        assert(sel.take(0) =~= Seq::<bool>::empty());
        assert(count_true(Seq::<bool>::empty()) == 0);
        assert(chain_state(a, b, tr[0], 0, 0)) by {
            assert(with_stride(a, a.stride as int) == a);
            assert(with_stride(b, b.stride as int) == b);
            assert(tr[0][0] == a && tr[0][1] == b && tr[0].len() == 2);
        }
    } else {
        lemma_chain_state(a, b, tr, picks, sel, k - 1);
        let pre = sel.take(k - 1);
        let n_a = count_true(pre);
        let n_b = (k - 1) - n_a;
        lemma_count_true_bounds(pre);
        // neither stride can saturate within the run
        assert((n_a + 1) * a.pass <= len * a.pass) by (nonlinear_arith)
            requires
                n_a + 1 <= len,
                a.pass >= 0,
        {}
        assert((n_b + 1) * b.pass <= len * b.pass) by (nonlinear_arith)
            requires
                n_b + 1 <= len,
                b.pass >= 0,
        {}
        assert(len * b.pass <= len * a.pass) by (nonlinear_arith)
            requires
                0 <= len,
                b.pass <= a.pass,
        {}
        assert(sched_round(tr[k - 1], tr[k], picks[k - 1]));
        lemma_chain_round(a, b, tr[k - 1], tr[k], picks[k - 1], n_a, n_b);
        assert(sel.take(k).drop_last() =~= pre);
        assert(sel.take(k).last() == sel[k - 1]);
        assert(count_true(sel.take(k)) == n_a + if sel[k - 1] { 1int } else { 0int });
        assert(valid_two_task_run(
            sel.take(k),
            a.stride as int,
            a.pass as int,
            a.prio as int,
            b.pass as int,
            b.prio as int,
        )) by {
            assert forall|i: int| 0 <= i < k implies (#[trigger] sel.take(k)[i]) == ({
                let n1 = count_true(sel.take(k).take(i));
                let n2 = i - n1;
                let s1 = a.stride as int + n1 * (a.pass as int);
                let s2 = a.stride as int + n2 * (b.pass as int);
                s1 < s2 || (s1 == s2 && b.prio as int <= a.prio as int)
            }) by {
                assert(sel.take(k).take(i) =~= sel.take(i));
                if i < k - 1 {
                    assert(pre[i] == sel[i]);
                    assert(pre.take(i) =~= sel.take(i));
                } else {
                    assert(sel.take(i) =~= pre);
                    assert(sel[k - 1] == (picks[k - 1].pid == a.pid));
                }
            }
        }
    }
}

proof fn lemma_times_picked_matches(
    picks: Seq<TaskControlBlock>,
    sel: Seq<bool>,
    a_pid: usize,
    b_pid: usize,
)
    requires
        a_pid != b_pid,
        sel.len() == picks.len(),
        forall|i: int| 0 <= i < picks.len() ==> (#[trigger] sel[i]) == (picks[i].pid == a_pid),
        forall|i: int| 0 <= i < picks.len()
            ==> (#[trigger] picks[i]).pid == a_pid || picks[i].pid == b_pid,
    ensures
        times_picked(picks, a_pid) == count_true(sel),
        times_picked(picks, b_pid) == picks.len() - count_true(sel),
    decreases picks.len(),
{
    if picks.len() > 0 {
        let n = picks.len() - 1;
        assert forall|i: int| 0 <= i < n
            implies (#[trigger] sel.drop_last()[i]) == (picks.drop_last()[i].pid == a_pid) by {
            assert(sel.drop_last()[i] == sel[i]);
            assert(picks.drop_last()[i] == picks[i]);
        }
        assert forall|i: int| 0 <= i < n
            implies (#[trigger] picks.drop_last()[i]).pid == a_pid
                || picks.drop_last()[i].pid == b_pid by {
            assert(picks.drop_last()[i] == picks[i]);
        }
        lemma_times_picked_matches(picks.drop_last(), sel.drop_last(), a_pid, b_pid);
        assert(picks[n].pid == a_pid || picks[n].pid == b_pid);
        assert(sel[n] == (picks[n].pid == a_pid));
    }
}

/// Stride fairness of the real scheduler, end to end: over any chain of
/// fetch-and-readd rounds on two tasks started from a common stride, with
/// the second task the strictly higher-priority one, the weighted
/// selection counts stay within one pass of each other — each task runs
/// in inverse proportion to its pass, i.e. in proportion to its priority
/// — and the higher-priority task is selected at least as often.
pub proof fn lemma_fetch_chain_fairness(
    a: TaskControlBlock,
    b: TaskControlBlock,
    tr: Seq<Seq<TaskControlBlock>>,
    picks: Seq<TaskControlBlock>,
)
    requires
        two_task_chain(a, b, tr, picks),
    ensures
        ({
            let n_a = times_picked(picks, a.pid);
            let n_b = times_picked(picks, b.pid);
            &&& n_a + n_b == picks.len()
            &&& n_a * a.pass <= n_b * b.pass + a.pass
            &&& n_b * b.pass <= n_a * a.pass + b.pass
            &&& n_a <= n_b
            &&& picks.len() > 2 * a.pass ==> n_a < n_b
        }),
{
    let len = picks.len() as int;
    let sel = Seq::new(picks.len(), |i: int| picks[i].pid == a.pid);
    lemma_chain_state(a, b, tr, picks, sel, len);
    assert(sel.take(len) =~= sel);
    lemma_stride_proportionality(
        sel,
        a.stride as int,
        a.pass as int,
        a.prio as int,
        b.pass as int,
        b.prio as int,
    );
    lemma_higher_priority_runs_at_least_as_often(
        sel,
        a.stride as int,
        a.pass as int,
        a.prio as int,
        b.pass as int,
        b.prio as int,
    );
    lemma_times_picked_matches(picks, sel, a.pid, b.pid);
    let n_a = times_picked(picks, a.pid);
    let n_b = times_picked(picks, b.pid);
    // in a long enough run the higher-priority task is strictly ahead:
    // were the counts equal, the weighted bound would cap the run length
    if picks.len() > 2 * a.pass && n_a == n_b {
        assert(n_a * a.pass <= n_a * b.pass + a.pass);
        assert(n_a * (a.pass - b.pass) <= a.pass) by (nonlinear_arith)
            requires
                n_a * a.pass <= n_a * b.pass + a.pass,
        {}
        assert(n_a <= n_a * (a.pass - b.pass)) by (nonlinear_arith)
            requires
                n_a >= 0,
                a.pass - b.pass >= 1,
        {}
        assert(picks.len() == 2 * n_a);
        assert(false);
    }
}

} // verus!
