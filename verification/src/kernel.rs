//! The kernel context: an arena of task control blocks indexed by
//! pid, the stride-scheduling ready queue, the processor's current
//! task, and the wall clock, together with every syscall entry point.
//! The context is built once at boot and passed explicitly, so there
//! is no hidden global state.

use vstd::prelude::*;
use crate::config::{PAGE_SIZE, MAX_SYSCALL_NUM, BIG_STRIDE, PID_CEILING, BRK_CEILING, RETVAL_REG};
use crate::mem::{
    AddressSpace, vpn_of, space_equiv, loads_image, mmap_accepts, munmap_accepts, range_lo,
    range_hi,
};
use crate::task::{
    TaskStatus, TaskControlBlock, zeroed_counts, zeroed_regs, task_from_image, fork_child,
    image_end,
};
use crate::records::{TimeVal, TaskInfo, TIME_VAL_BYTES, TASK_INFO_BYTES};

verus! {

/// Some task of `s` has pid `pid`.
pub open spec fn has_pid(s: Seq<TaskControlBlock>, pid: usize) -> bool {
    exists|i: int| 0 <= i < s.len() && (#[trigger] s[i]).pid == pid
}

/// Arena index of the task with pid `pid` (unique when pids are
/// distinct).
pub open spec fn pid_index(s: Seq<TaskControlBlock>, pid: usize) -> int {
    choose|i: int| 0 <= i < s.len() && (#[trigger] s[i]).pid == pid
}

/// The task of `s` with pid `pid`.
pub open spec fn task_with(s: Seq<TaskControlBlock>, pid: usize) -> TaskControlBlock {
    s[pid_index(s, pid)]
}

/// No two tasks of `s` share a pid.
pub open spec fn distinct_pids(s: Seq<TaskControlBlock>) -> bool {
    forall|i: int, j: int|
        0 <= i < j < s.len() ==> (#[trigger] s[i]).pid != (#[trigger] s[j]).pid
}

/// Parent/child bookkeeping is sound: every pid on a children list
/// names a task of the arena whose parent is the list's owner, and no
/// pid appears twice on one list.  With distinct pids this makes
/// every child owned by exactly one parent.
pub open spec fn family_ok(s: Seq<TaskControlBlock>) -> bool {
    &&& forall|i: int, c: int|
        0 <= i < s.len() && 0 <= c < s[i].children@.len() ==> has_pid(
            s,
            #[trigger] s[i].children@[c],
        )
    &&& forall|i: int, c: int|
        0 <= i < s.len() && 0 <= c < s[i].children@.len() ==> task_with(
            s,
            #[trigger] s[i].children@[c],
        ).parent == Some(s[i].pid)
    &&& forall|i: int, c1: int, c2: int|
        0 <= i < s.len() && 0 <= c1 < c2 < s[i].children@.len() ==> (
        #[trigger] s[i].children@[c1]) != (#[trigger] s[i].children@[c2])
}

/// With distinct pids, the arena index of a pid is the index of the
/// task that carries it.
pub proof fn lemma_pid_index_unique(s: Seq<TaskControlBlock>, i: int)
    requires
        distinct_pids(s),
        0 <= i < s.len(),
    ensures
        has_pid(s, s[i].pid),
        pid_index(s, s[i].pid) == i,
{
    assert(has_pid(s, s[i].pid));
    let j = pid_index(s, s[i].pid);
    if j != i {
        assert(s[i].pid != s[j].pid);
    }
}

/// Appending a task with a fresh pid keeps every existing task
/// reachable unchanged and makes the new one reachable.
pub proof fn lemma_push_task(s: Seq<TaskControlBlock>, t: TaskControlBlock)
    requires
        distinct_pids(s),
        !has_pid(s, t.pid),
    ensures
        distinct_pids(s.push(t)),
        forall|p: usize| #[trigger] has_pid(s.push(t), p) == (has_pid(s, p) || p == t.pid),
        forall|p: usize|
            has_pid(s, p) ==> #[trigger] task_with(s.push(t), p) == task_with(s, p),
        task_with(s.push(t), t.pid) == t,
{
    let s1 = s.push(t);
    assert(distinct_pids(s1)) by {
        assert forall|x: int, y: int| 0 <= x < y < s1.len() implies (#[trigger] s1[x]).pid != (
        #[trigger] s1[y]).pid by {
            if y < s.len() {
                assert(s[x].pid != s[y].pid);
            } else {
                if s1[x].pid == t.pid {
                    assert(s[x].pid == t.pid);
                    assert(has_pid(s, t.pid));
                }
            }
        }
    }
    assert forall|p: usize| #[trigger] has_pid(s1, p) == (has_pid(s, p) || p == t.pid) by {
        if has_pid(s, p) {
            let i = pid_index(s, p);
            assert(s1[i].pid == p);
        }
        if p == t.pid {
            assert(s1[s.len() as int].pid == p);
        }
        if has_pid(s1, p) {
            let i = pid_index(s1, p);
            if i < s.len() {
                assert(s[i].pid == p);
            }
        }
    }
    assert forall|p: usize| has_pid(s, p) implies #[trigger] task_with(s1, p) == task_with(
        s,
        p,
    ) by {
        let i = pid_index(s, p);
        assert(s[i].pid == p);
        lemma_pid_index_unique(s, i);
        assert(s1[i].pid == p);
        lemma_pid_index_unique(s1, i);
    }
    lemma_pid_index_unique(s1, s.len() as int);
}

/// Replacing a task by one with the same pid keeps every other task
/// reachable unchanged.
pub proof fn lemma_update_task(s: Seq<TaskControlBlock>, i: int, t: TaskControlBlock)
    requires
        distinct_pids(s),
        0 <= i < s.len(),
        t.pid == s[i].pid,
    ensures
        distinct_pids(s.update(i, t)),
        forall|p: usize| #[trigger] has_pid(s.update(i, t), p) == has_pid(s, p),
        forall|p: usize|
            has_pid(s, p) && p != t.pid ==> #[trigger] task_with(s.update(i, t), p) == task_with(
                s,
                p,
            ),
        task_with(s.update(i, t), t.pid) == t,
{
    let s1 = s.update(i, t);
    assert(distinct_pids(s1)) by {
        assert forall|x: int, y: int| 0 <= x < y < s1.len() implies (#[trigger] s1[x]).pid != (
        #[trigger] s1[y]).pid by {
            assert(s[x].pid != s[y].pid);
        }
    }
    assert forall|p: usize| #[trigger] has_pid(s1, p) == has_pid(s, p) by {
        if has_pid(s, p) {
            let k = pid_index(s, p);
            assert(s1[k].pid == p);
        }
        if has_pid(s1, p) {
            let k = pid_index(s1, p);
            assert(s[k].pid == p);
        }
    }
    assert forall|p: usize| has_pid(s, p) && p != t.pid implies #[trigger] task_with(s1, p)
        == task_with(s, p) by {
        let k = pid_index(s, p);
        assert(s[k].pid == p);
        lemma_pid_index_unique(s, k);
        assert(k != i);
        assert(s1[k].pid == p);
        lemma_pid_index_unique(s1, k);
    }
    lemma_pid_index_unique(s1, i);
}

/// Removing a task makes exactly its pid unreachable and keeps every
/// other task unchanged.
pub proof fn lemma_remove_task(s: Seq<TaskControlBlock>, i: int)
    requires
        distinct_pids(s),
        0 <= i < s.len(),
    ensures
        distinct_pids(s.remove(i)),
        forall|p: usize|
            #[trigger] has_pid(s.remove(i), p) == (has_pid(s, p) && p != s[i].pid),
        forall|p: usize|
            has_pid(s, p) && p != s[i].pid ==> #[trigger] task_with(s.remove(i), p) == task_with(
                s,
                p,
            ),
{
    let s1 = s.remove(i);
    assert(distinct_pids(s1)) by {
        assert forall|x: int, y: int| 0 <= x < y < s1.len() implies (#[trigger] s1[x]).pid != (
        #[trigger] s1[y]).pid by {
            let x0 = if x < i {
                x
            } else {
                x + 1
            };
            let y0 = if y < i {
                y
            } else {
                y + 1
            };
            assert(s1[x] == s[x0] && s1[y] == s[y0]);
            assert(s[x0].pid != s[y0].pid);
        }
    }
    assert forall|p: usize| #[trigger] has_pid(s1, p) == (has_pid(s, p) && p != s[i].pid) by {
        if has_pid(s1, p) {
            let k = pid_index(s1, p);
            let k0 = if k < i {
                k
            } else {
                k + 1
            };
            assert(s[k0].pid == p);
            if p == s[i].pid {
                lemma_pid_index_unique(s, i);
                lemma_pid_index_unique(s, k0);
            }
        }
        if has_pid(s, p) && p != s[i].pid {
            let k = pid_index(s, p);
            assert(s[k].pid == p);
            assert(k != i);
            if k < i {
                assert(s1[k].pid == p);
            } else {
                assert(s1[k - 1].pid == p);
            }
        }
    }
    assert forall|p: usize| has_pid(s, p) && p != s[i].pid implies #[trigger] task_with(s1, p)
        == task_with(s, p) by {
        let k = pid_index(s, p);
        assert(s[k].pid == p);
        lemma_pid_index_unique(s, k);
        assert(k != i);
        if k < i {
            assert(s1[k].pid == p);
            lemma_pid_index_unique(s1, k);
        } else {
            assert(s1[k - 1].pid == p);
            lemma_pid_index_unique(s1, k - 1);
        }
    }
}

/// The kernel context.
pub struct Kernel {
    /// Arena of all live tasks, keyed by their unique pids.
    pub tasks: Vec<TaskControlBlock>,
    /// Pids of the Ready tasks awaiting dispatch, in queue order.
    pub ready: Vec<usize>,
    /// Pid of the task currently on the processor, if any.
    pub current: Option<usize>,
    /// Next unassigned pid.
    pub next_pid: usize,
    /// Wall clock, in microseconds; only ever advances.
    pub clock_us: usize,
}

impl Kernel {
    pub open spec fn has_task(self, pid: usize) -> bool {
        has_pid(self.tasks@, pid)
    }

    pub open spec fn task_of(self, pid: usize) -> TaskControlBlock {
        task_with(self.tasks@, pid)
    }

    pub open spec fn has_current(self) -> bool {
        self.current is Some
    }

    pub open spec fn cur_pid(self) -> usize {
        self.current.unwrap()
    }

    /// The task currently on the processor.
    pub open spec fn cur_task(self) -> TaskControlBlock {
        self.task_of(self.cur_pid())
    }

    /// Internal consistency of the whole kernel: pids unique and
    /// below the next free one, every task well formed and stamped no
    /// later than the clock, the ready queue holding distinct Ready
    /// tasks, the current task Running and not queued, and the
    /// parent/child bookkeeping sound.
    pub open spec fn wf(self) -> bool {
        &&& distinct_pids(self.tasks@)
        &&& family_ok(self.tasks@)
        &&& forall|i: int| 0 <= i < self.tasks@.len() ==> (#[trigger] self.tasks@[i]).wf()
        &&& forall|i: int|
            0 <= i < self.tasks@.len() ==> (#[trigger] self.tasks@[i]).pid < self.next_pid
        &&& self.next_pid <= PID_CEILING
        &&& forall|i: int|
            0 <= i < self.tasks@.len() ==> (#[trigger] self.tasks@[i]).init_time_us
                <= self.clock_us
        &&& forall|k: int|
            0 <= k < self.ready@.len() ==> has_pid(self.tasks@, #[trigger] self.ready@[k])
                && task_with(self.tasks@, self.ready@[k]).status == TaskStatus::Ready
        &&& forall|k1: int, k2: int|
            0 <= k1 < k2 < self.ready@.len() ==> (#[trigger] self.ready@[k1]) != (
            #[trigger] self.ready@[k2])
        &&& self.has_current() ==> has_pid(self.tasks@, self.cur_pid()) && task_with(
            self.tasks@,
            self.cur_pid(),
        ).status == TaskStatus::Running && (forall|k: int|
            0 <= k < self.ready@.len() ==> (#[trigger] self.ready@[k]) != self.cur_pid())
    }

    /// An empty kernel, as built at boot: no tasks, nothing queued,
    /// nothing running, the clock at zero.
    pub fn new() -> (k: Kernel)
        ensures
            k.wf(),
            k.tasks@.len() == 0,
            k.ready@.len() == 0,
            !k.has_current(),
            k.next_pid == 0,
            k.clock_us == 0,
    {
        Kernel {
            tasks: Vec::new(),
            ready: Vec::new(),
            current: None,
            next_pid: 0,
            clock_us: 0,
        }
    }

    /// Arena index of the task with pid `pid`, if it is live.
    pub fn find_task(&self, pid: usize) -> (r: Option<usize>)
        requires
            distinct_pids(self.tasks@),
        ensures
            match r {
                Some(i) => i < self.tasks@.len() && self.tasks@[i as int].pid == pid && pid_index(
                    self.tasks@,
                    pid,
                ) == i && self.has_task(pid),
                None => !self.has_task(pid),
            },
    {
        let n = self.tasks.len();
        for i in 0..n
            invariant
                n == self.tasks@.len(),
                distinct_pids(self.tasks@),
                forall|k: int| 0 <= k < i ==> (#[trigger] self.tasks@[k]).pid != pid,
        {
            if self.tasks[i].pid == pid {
                proof {
                    lemma_pid_index_unique(self.tasks@, i as int);
                }
                return Some(i);
            }
        }
        assert(!self.has_task(pid));
        None
    }

    /// Advance the wall clock.  The clock never moves backwards, so
    /// time readings taken in sequence are non-decreasing.
    pub fn advance_clock(&mut self, delta_us: usize)
        requires
            old(self).wf(),
            old(self).clock_us + delta_us <= usize::MAX,
        ensures
            final (self).wf(),
            *final (self) == (Kernel { clock_us: (old(self).clock_us + delta_us) as usize, ..*old(
                self,
            ) }),
    {
        self.clock_us = self.clock_us + delta_us;
    }

    /// Pid of the task currently on the processor, if any.
    pub fn current_task(&self) -> (r: Option<usize>)
        ensures
            r == self.current,
    {
        self.current
    }

    /// Create the initial task from a program image and queue it:
    /// the root of the task family, with no parent.
    pub fn spawn_initial(&mut self, image: &Vec<u8>) -> (pid: usize)
        requires
            old(self).wf(),
            old(self).next_pid < PID_CEILING,
            image@.len() <= BRK_CEILING,
        ensures
            final (self).wf(),
            pid == old(self).next_pid,
            final (self).next_pid == old(self).next_pid + 1,
            final (self).has_task(pid),
            final (self).task_of(pid).status == TaskStatus::Ready,
            final (self).task_of(pid).parent == None::<usize>,
            final (self).task_of(pid).priority == crate::config::DEFAULT_PRIORITY,
            final (self).task_of(pid).stride == 0,
            zeroed_counts(final (self).task_of(pid).syscall_cnt@),
            loads_image(final (self).task_of(pid).addr_space, image@),
            final (self).task_of(pid).program_brk == image_end(image@.len() as int),
            forall|p: usize| #[trigger] final (self).has_task(p) == (old(self).has_task(p) || p
                == pid),
            forall|p: usize|
                old(self).has_task(p) ==> #[trigger] final (self).task_of(p) == old(self).task_of(
                    p,
                ),
            final (self).ready@ == old(self).ready@.push(pid),
            final (self).current == old(self).current,
            final (self).clock_us == old(self).clock_us,
    {
        let pid = self.next_pid;
        let t = task_from_image(pid, None, image);
        proof {
            if has_pid(self.tasks@, pid) {
                let i = pid_index(self.tasks@, pid);
            }
            lemma_push_task(self.tasks@, t);
        }
        self.tasks.push(t);
        self.ready.push(pid);
        self.next_pid = pid + 1;
        proof {
            lemma_family_grow(old(self).tasks@, self.tasks@, pid);
        }
        pid
    }

    /// Pid of the calling task.
    pub fn sys_getpid(&self) -> (r: isize)
        requires
            self.wf(),
            self.has_current(),
        ensures
            r == self.cur_pid() as isize,
            0 <= r,
    {
        let pid = self.current.unwrap();
        proof {
            let i = pid_index(self.tasks@, pid);
        }
        pid as isize
    }

    /// Give up the processor: the calling task goes back to Ready at
    /// the tail of the ready queue, and the processor falls idle.
    pub fn sys_yield(&mut self) -> (r: isize)
        requires
            old(self).wf(),
            old(self).has_current(),
        ensures
            final (self).wf(),
            r == 0,
            !final (self).has_current(),
            final (self).ready@ == old(self).ready@.push(old(self).cur_pid()),
            forall|p: usize| #[trigger] final (self).has_task(p) == old(self).has_task(p),
            final (self).task_of(old(self).cur_pid()) == (TaskControlBlock {
                status: TaskStatus::Ready,
                ..old(self).cur_task()
            }),
            forall|p: usize|
                old(self).has_task(p) && p != old(self).cur_pid()
                    ==> #[trigger] final (self).task_of(p) == old(self).task_of(p),
            final (self).clock_us == old(self).clock_us,
            final (self).next_pid == old(self).next_pid,
    {
        let pid = self.current.unwrap();
        let i = self.find_task(pid).unwrap();
        let ghost s0 = self.tasks@;
        self.tasks[i].status = TaskStatus::Ready;
        self.current = None;
        self.ready.push(pid);
        proof {
            let t = self.tasks@[i as int];
            assert(self.tasks@ =~= s0.update(i as int, t));
            lemma_update_task(s0, i as int, t);
            lemma_family_update(s0, i as int, t);
        }
        0
    }

    /// Terminate the calling task: it becomes a Zombie holding
    /// `exit_code`, leaves the processor, and is destroyed only when
    /// its parent reaps it.
    pub fn sys_exit(&mut self, exit_code: i32)
        requires
            old(self).wf(),
            old(self).has_current(),
        ensures
            final (self).wf(),
            !final (self).has_current(),
            final (self).task_of(old(self).cur_pid()) == (TaskControlBlock {
                status: TaskStatus::Zombie,
                exit_code: exit_code,
                ..old(self).cur_task()
            }),
            forall|p: usize| #[trigger] final (self).has_task(p) == old(self).has_task(p),
            forall|p: usize|
                old(self).has_task(p) && p != old(self).cur_pid()
                    ==> #[trigger] final (self).task_of(p) == old(self).task_of(p),
            final (self).ready@ == old(self).ready@,
            final (self).clock_us == old(self).clock_us,
            final (self).next_pid == old(self).next_pid,
    {
        let pid = self.current.unwrap();
        let i = self.find_task(pid).unwrap();
        let ghost s0 = self.tasks@;
        self.tasks[i].status = TaskStatus::Zombie;
        self.tasks[i].exit_code = exit_code;
        self.current = None;
        proof {
            let t = self.tasks@[i as int];
            assert(self.tasks@ =~= s0.update(i as int, t));
            lemma_update_task(s0, i as int, t);
            lemma_family_update(s0, i as int, t);
        }
    }

    /// Stride of the `k`-th queued task.
    pub open spec fn stride_at(self, k: int) -> u64 {
        task_with(self.tasks@, self.ready@[k]).stride
    }

    /// `j` is the stride scheduler's selection: the queued task with
    /// the numerically smallest stride, ties broken by queue order.
    pub open spec fn min_stride_choice(self, j: int) -> bool {
        &&& 0 <= j < self.ready@.len()
        &&& forall|k: int|
            0 <= k < self.ready@.len() ==> self.stride_at(j) <= #[trigger] self.stride_at(k)
        &&& forall|k: int| 0 <= k < j ==> self.stride_at(j) < #[trigger] self.stride_at(k)
    }

    /// The index the stride scheduler selects (unique, since ties
    /// break by queue order).
    pub open spec fn chosen_ready_index(self) -> int {
        choose|j: int| self.min_stride_choice(j)
    }

    /// Select, dequeue and dispatch the next task: the Ready task
    /// with the smallest stride (earliest queued among equals) starts
    /// Running, its start time is stamped on first dispatch ever, and
    /// its stride grows by its pass, `BIG_STRIDE / priority`.
    /// Reports nothing to run when the queue is empty.
    pub fn dispatch_next(&mut self) -> (r: Option<usize>)
        requires
            old(self).wf(),
            !old(self).has_current(),
        ensures
            final (self).wf(),
            old(self).ready@.len() == 0 ==> r == None::<usize> && *final (self) == *old(self),
            old(self).ready@.len() > 0 ==> {
                let j = old(self).chosen_ready_index();
                let pid = old(self).ready@[j];
                &&& old(self).min_stride_choice(j)
                &&& r == Some(pid)
                &&& final (self).current == Some(pid)
                &&& final (self).ready@ == old(self).ready@.remove(j)
                &&& final (self).task_of(pid) == (TaskControlBlock {
                    status: TaskStatus::Running,
                    stride: bumped_stride(old(self).task_of(pid)),
                    started: true,
                    init_time_us: if old(self).task_of(pid).started {
                        old(self).task_of(pid).init_time_us
                    } else {
                        old(self).clock_us
                    },
                    ..old(self).task_of(pid)
                })
                &&& forall|p: usize| #[trigger] final (self).has_task(p) == old(self).has_task(p)
                &&& forall|p: usize|
                    old(self).has_task(p) && p != pid ==> #[trigger] final (self).task_of(p)
                        == old(self).task_of(p)
            },
            final (self).clock_us == old(self).clock_us,
            final (self).next_pid == old(self).next_pid,
    {
        let n = self.ready.len();
        if n == 0 {
            return None;
        }
        let i0 = self.find_task(self.ready[0]).unwrap();
        let mut best: usize = 0;
        let mut best_stride: u64 = self.tasks[i0].stride;
        proof {
            lemma_pid_index_unique(self.tasks@, i0 as int);
        }
        let mut k: usize = 1;
        while k < n
            invariant
                self == old(self),
                self.wf(),
                n == self.ready@.len(),
                0 < n,
                best < k <= n,
                best_stride == self.stride_at(best as int),
                forall|m: int| 0 <= m < k ==> best_stride <= #[trigger] self.stride_at(m),
                forall|m: int| 0 <= m < best ==> best_stride < #[trigger] self.stride_at(m),
            decreases n - k,
        {
            let ik = self.find_task(self.ready[k]).unwrap();
            let s = self.tasks[ik].stride;
            proof {
                lemma_pid_index_unique(self.tasks@, ik as int);
                assert(s == self.stride_at(k as int));
            }
            if s < best_stride {
                best = k;
                best_stride = s;
            }
            k += 1;
        }
        assert(self.min_stride_choice(best as int));
        proof {
            lemma_min_choice_unique(*self, best as int);
        }
        let pid = self.ready.remove(best);
        let ti = self.find_task(pid).unwrap();
        let ghost s0 = self.tasks@;
        let pass = BIG_STRIDE / self.tasks[ti].priority;
        let old_stride = self.tasks[ti].stride;
        let new_stride = if old_stride <= u64::MAX - pass {
            old_stride + pass
        } else {
            u64::MAX
        };
        self.tasks[ti].stride = new_stride;
        self.tasks[ti].status = TaskStatus::Running;
        if !self.tasks[ti].started {
            self.tasks[ti].init_time_us = self.clock_us;
            self.tasks[ti].started = true;
        }
        self.current = Some(pid);
        proof {
            let t = self.tasks@[ti as int];
            assert(self.tasks@ =~= s0.update(ti as int, t));
            lemma_update_task(s0, ti as int, t);
            lemma_family_update(s0, ti as int, t);
            assert forall|k1: int, k2: int|
                0 <= k1 < k2 < self.ready@.len() implies (#[trigger] self.ready@[k1]) != (
            #[trigger] self.ready@[k2]) by {
                let b = best as int;
                let m1 = if k1 < b {
                    k1
                } else {
                    k1 + 1
                };
                let m2 = if k2 < b {
                    k2
                } else {
                    k2 + 1
                };
                assert(old(self).ready@[m1] != old(self).ready@[m2]);
            }
        }
        Some(pid)
    }

    /// Write `data` into the current task's address space at `addr`,
    /// byte-window by byte-window.
    fn write_to_current(&mut self, addr: usize, data: &Vec<u8>)
        requires
            old(self).wf(),
            old(self).has_current(),
            addr + data@.len() <= usize::MAX,
            old(self).cur_task().addr_space.span_mapped(addr as int, data@.len() as int),
        ensures
            final (self).wf(),
            final (self).has_current(),
            wrote_user_bytes(*old(self), *final (self), data@, addr),
    {
        let pid = self.current.unwrap();
        let i = self.find_task(pid).unwrap();
        let ghost s0 = self.tasks@;
        let mut t = self.tasks.remove(i);
        t.addr_space.write_bytes(addr, data);
        self.tasks.insert(i, t);
        proof {
            let ti = i as int;
            let tv = self.tasks@[ti];
            assert(self.tasks@ =~= s0.update(ti, tv));
            lemma_update_task(s0, ti, tv);
            lemma_family_update(s0, ti, tv);
        }
    }

    /// Record one invocation of syscall `syscall_id` against the
    /// current task; with no current task nothing is recorded.  Each
    /// call adds exactly one to exactly that identifier's counter, so
    /// a task's table always holds the exact invocation counts since
    /// its creation.
    pub fn count_syscall(&mut self, syscall_id: usize)
        requires
            old(self).wf(),
            syscall_id < MAX_SYSCALL_NUM,
            old(self).has_current() ==> old(self).cur_task().syscall_cnt@[syscall_id as int]
                < u32::MAX,
        ensures
            final (self).wf(),
            !old(self).has_current() ==> same_state(*old(self), *final (self)),
            old(self).has_current() ==> same_but_cur(*old(self), *final (self)) && final (self).task_of(old(self).cur_pid()).syscall_cnt@ == old(
                self,
            ).cur_task().syscall_cnt@.update(
                syscall_id as int,
                (old(self).cur_task().syscall_cnt@[syscall_id as int] + 1) as u32,
            ) && (TaskControlBlock {
                syscall_cnt: old(self).cur_task().syscall_cnt,
                ..final (self).task_of(old(self).cur_pid())
            }) == old(self).cur_task(),
    {
        if self.current.is_none() {
            return ;
        }
        let pid = self.current.unwrap();
        let i = self.find_task(pid).unwrap();
        let ghost s0 = self.tasks@;
        let c = self.tasks[i].syscall_cnt[syscall_id];
        self.tasks[i].syscall_cnt[syscall_id] = c + 1;
        proof {
            let ti = i as int;
            let tv = self.tasks@[ti];
            assert(self.tasks@ =~= s0.update(ti, tv));
            lemma_update_task(s0, ti, tv);
            lemma_family_update(s0, ti, tv);
            assert(tv.syscall_cnt@ =~= s0[ti].syscall_cnt@.update(
                syscall_id as int,
                (s0[ti].syscall_cnt@[syscall_id as int] + 1) as u32,
            ));
        }
    }

    /// Snapshot of the current task's syscall accounting table; an
    /// all-zero table when no task is current.
    pub fn get_syscall_times(&self) -> (r: Vec<u32>)
        requires
            self.wf(),
        ensures
            r@.len() == MAX_SYSCALL_NUM,
            self.has_current() ==> r@ == self.cur_task().syscall_cnt@,
            !self.has_current() ==> zeroed_counts(r@),
    {
        if self.current.is_none() {
            return crate::task::fresh_counts();
        }
        let pid = self.current.unwrap();
        let i = self.find_task(pid).unwrap();
        let src = &self.tasks[i].syscall_cnt;
        let mut r: Vec<u32> = Vec::new();
        let n = src.len();
        for k in 0..n
            invariant
                n == src@.len(),
                r@.len() == k,
                forall|m: int| 0 <= m < k ==> r@[m] == src@[m],
        {
            r.push(src[k]);
        }
        proof {
            assert(r@ =~= src@);
        }
        r
    }

    /// Total running time of the current task, in milliseconds: the
    /// clock now less the clock at its first dispatch.  Defensively
    /// zero when no task is current.
    pub fn get_current_task_run_time(&self) -> (r: usize)
        requires
            self.wf(),
        ensures
            self.has_current() ==> r == (self.clock_us - self.cur_task().init_time_us) / 1000,
            !self.has_current() ==> r == 0,
    {
        if self.current.is_none() {
            return 0;
        }
        let pid = self.current.unwrap();
        let i = self.find_task(pid).unwrap();
        (self.clock_us - self.tasks[i].init_time_us) / 1000
    }

    /// Write the wall clock, as seconds and microseconds, into the
    /// current task's address space at `ts`, window by window.
    pub fn sys_get_time(&mut self, ts: usize, _tz: usize) -> (r: isize)
        requires
            old(self).wf(),
            old(self).has_current(),
            ts + TIME_VAL_BYTES <= usize::MAX,
            old(self).cur_task().addr_space.span_mapped(ts as int, TIME_VAL_BYTES as int),
        ensures
            final (self).wf(),
            r == 0,
            wrote_user_bytes(*old(self), *final (self), time_val_record(old(self).clock_us), ts),
    {
        let tv = TimeVal { sec: self.clock_us / 1_000_000, usec: self.clock_us % 1_000_000 };
        let data = tv.encode();
        self.write_to_current(ts, &data);
        0
    }

    /// Write the current task's introspection record — its status
    /// (Running), its syscall counts, and its running time — into its
    /// address space at `ti`, window by window.
    pub fn sys_task_info(&mut self, ti: usize) -> (r: isize)
        requires
            old(self).wf(),
            old(self).has_current(),
            ti + TASK_INFO_BYTES <= usize::MAX,
            old(self).cur_task().addr_space.span_mapped(ti as int, TASK_INFO_BYTES as int),
        ensures
            final (self).wf(),
            r == 0,
            wrote_user_bytes(*old(self), *final (self), task_info_record(*old(self)), ti),
    {
        let info = TaskInfo {
            status: TaskStatus::Running,
            syscall_times: self.get_syscall_times(),
            time: self.get_current_task_run_time(),
        };
        let data = info.encode();
        self.write_to_current(ti, &data);
        0
    }

    /// Map a demand-backed region `[start, round_up(start + len))`
    /// with the permissions requested by `port` into the current
    /// task's address space.  Fails, leaving every task untouched, on
    /// a misaligned `start`, a malformed permission byte, any overlap
    /// with an existing mapping, or when no task is current.
    pub fn sys_mmap(&mut self, start: usize, len: usize, port: usize) -> (r: isize)
        requires
            old(self).wf(),
            start + len <= usize::MAX - PAGE_SIZE,
        ensures
            final (self).wf(),
            !old(self).has_current() ==> r == -1 && same_state(*old(self), *final (self)),
            old(self).has_current() && !mmap_accepts(
                old(self).cur_task().addr_space,
                start,
                len,
                port,
            ) ==> r == -1 && same_state(*old(self), *final (self)),
            old(self).has_current() && mmap_accepts(
                old(self).cur_task().addr_space,
                start,
                len,
                port,
            ) ==> r == 0 && same_but_cur(*old(self), *final (self)) && AddressSpace::maps_added(
                old(self).cur_task().addr_space,
                final (self).task_of(old(self).cur_pid()).addr_space,
                range_lo(start),
                range_hi(start, len),
                crate::mem::perm_of_port(port),
            ) && (TaskControlBlock {
                addr_space: old(self).cur_task().addr_space,
                ..final (self).task_of(old(self).cur_pid())
            }) == old(self).cur_task(),
    {
        if self.current.is_none() {
            return -1;
        }
        let pid = self.current.unwrap();
        let i = self.find_task(pid).unwrap();
        let ghost s0 = self.tasks@;
        let mut t = self.tasks.remove(i);
        let rc = t.addr_space.mmap(start, len, port);
        self.tasks.insert(i, t);
        proof {
            let ti = i as int;
            let tv = self.tasks@[ti];
            assert(self.tasks@ =~= s0.update(ti, tv));
            lemma_update_task(s0, ti, tv);
            lemma_family_update(s0, ti, tv);
        }
        rc
    }

    /// Unmap the page range covering `[start, start + len)` from the
    /// current task's address space.  Fails, leaving every task
    /// untouched, on a misaligned `start`, any unmapped page in the
    /// range, or when no task is current; no partial unmap is ever
    /// observable.
    pub fn sys_munmap(&mut self, start: usize, len: usize) -> (r: isize)
        requires
            old(self).wf(),
            start + len <= usize::MAX - PAGE_SIZE,
        ensures
            final (self).wf(),
            !old(self).has_current() ==> r == -1 && same_state(*old(self), *final (self)),
            old(self).has_current() && !munmap_accepts(old(self).cur_task().addr_space, start, len)
                ==> r == -1 && same_state(*old(self), *final (self)),
            old(self).has_current() && munmap_accepts(old(self).cur_task().addr_space, start, len)
                ==> r == 0 && same_but_cur(*old(self), *final (self))
                && AddressSpace::maps_removed(
                old(self).cur_task().addr_space,
                final (self).task_of(old(self).cur_pid()).addr_space,
                range_lo(start),
                range_hi(start, len),
            ) && (TaskControlBlock {
                addr_space: old(self).cur_task().addr_space,
                ..final (self).task_of(old(self).cur_pid())
            }) == old(self).cur_task(),
    {
        if self.current.is_none() {
            return -1;
        }
        let pid = self.current.unwrap();
        let i = self.find_task(pid).unwrap();
        let ghost s0 = self.tasks@;
        let mut t = self.tasks.remove(i);
        let rc = t.addr_space.munmap(start, len);
        self.tasks.insert(i, t);
        proof {
            let ti = i as int;
            let tv = self.tasks@[ti];
            assert(self.tasks@ =~= s0.update(ti, tv));
            lemma_update_task(s0, ti, tv);
            lemma_family_update(s0, ti, tv);
        }
        rc
    }

    /// Grow or shrink the current task's heap by `size` bytes,
    /// returning the previous program break, or the failure sentinel
    /// when the resulting break would be invalid.
    pub fn sys_sbrk(&mut self, size: i32) -> (r: isize)
        requires
            old(self).wf(),
            old(self).has_current(),
        ensures
            final (self).wf(),
            !old(self).cur_task().sbrk_accepts(size) ==> r == -1 && same_state(
                *old(self),
                *final (self),
            ),
            old(self).cur_task().sbrk_accepts(size) ==> r == old(self).cur_task().program_brk as isize
                && same_but_cur(*old(self), *final (self)) && final (self).task_of(
                old(self).cur_pid(),
            ) == (TaskControlBlock {
                program_brk: old(self).cur_task().sbrk_target(size) as usize,
                ..old(self).cur_task()
            }),
    {
        let pid = self.current.unwrap();
        let i = self.find_task(pid).unwrap();
        let ghost s0 = self.tasks@;
        let mut t = self.tasks.remove(i);
        let res = t.change_program_brk(size);
        self.tasks.insert(i, t);
        proof {
            let ti = i as int;
            let tv = self.tasks@[ti];
            assert(self.tasks@ =~= s0.update(ti, tv));
            lemma_update_task(s0, ti, tv);
            lemma_family_update(s0, ti, tv);
        }
        match res {
            Some(old_brk) => old_brk as isize,
            None => -1,
        }
    }

    /// Set the current task's scheduling priority.  Fails for any
    /// value below 2; otherwise returns the priority just set.
    pub fn sys_set_priority(&mut self, prio: isize) -> (r: isize)
        requires
            old(self).wf(),
            old(self).has_current(),
        ensures
            final (self).wf(),
            prio < 2 ==> r == -1 && same_state(*old(self), *final (self)),
            prio >= 2 ==> r == prio && same_but_cur(*old(self), *final (self)) && final (
            self).task_of(old(self).cur_pid()) == (TaskControlBlock {
                priority: prio as u64,
                ..old(self).cur_task()
            }),
    {
        if prio < 2 {
            return -1;
        }
        let pid = self.current.unwrap();
        let i = self.find_task(pid).unwrap();
        let ghost s0 = self.tasks@;
        self.tasks[i].priority = prio as u64;
        proof {
            let ti = i as int;
            let tv = self.tasks@[ti];
            assert(self.tasks@ =~= s0.update(ti, tv));
            lemma_update_task(s0, ti, tv);
            lemma_family_update(s0, ti, tv);
        }
        prio
    }

    /// Read `n` bytes from the current task's address space at
    /// `addr`, as the translation facility would hand them out.
    pub fn read_user_bytes(&self, addr: usize, n: usize) -> (r: Vec<u8>)
        requires
            self.wf(),
            self.has_current(),
            addr + n <= usize::MAX,
            self.cur_task().addr_space.span_mapped(addr as int, n as int),
        ensures
            r@.len() == n,
            forall|k: int|
                0 <= k < n ==> r@[k] == self.cur_task().addr_space.byte_at(#[trigger] (addr + k)),
    {
        let pid = self.current.unwrap();
        let i = self.find_task(pid).unwrap();
        let mut r: Vec<u8> = Vec::new();
        let mut k: usize = 0;
        while k < n
            invariant
                self.wf(),
                self.has_current(),
                i as int == pid_index(self.tasks@, self.cur_pid()),
                i < self.tasks@.len(),
                addr + n <= usize::MAX,
                self.cur_task().addr_space.span_mapped(addr as int, n as int),
                k <= n,
                r@.len() == k,
                forall|m: int|
                    0 <= m < k ==> r@[m] == self.cur_task().addr_space.byte_at(
                        #[trigger] (addr + m),
                    ),
            decreases n - k,
        {
            assert(self.cur_task().addr_space.is_mapped(vpn_of(addr + k as int)));
            let b = self.tasks[i].addr_space.read_byte(addr + k);
            r.push(b);
            k += 1;
        }
        r
    }

    /// Duplicate the current task: the child copies its parent's
    /// address space, break and priority, observes 0 in its
    /// return-value register, starts its accounting from zero, joins
    /// the parent's children and the ready queue, and its pid is
    /// returned to the parent.
    pub fn sys_fork(&mut self) -> (r: isize)
        requires
            old(self).wf(),
            old(self).has_current(),
            old(self).next_pid < PID_CEILING,
        ensures
            final (self).wf(),
            r == old(self).next_pid as isize,
            final (self).next_pid == old(self).next_pid + 1,
            final (self).has_task(old(self).next_pid),
            ({
                let child = final (self).task_of(old(self).next_pid);
                &&& child.status == TaskStatus::Ready
                &&& child.parent == Some(old(self).cur_pid())
                &&& child.children@.len() == 0
                &&& child.priority == old(self).cur_task().priority
                &&& child.stride == 0
                &&& zeroed_counts(child.syscall_cnt@)
                &&& !child.started
                &&& space_equiv(old(self).cur_task().addr_space, child.addr_space)
                &&& child.trap_ctx@ == old(self).cur_task().trap_ctx@.update(
                    RETVAL_REG as int,
                    0usize,
                )
                &&& child.heap_bottom == old(self).cur_task().heap_bottom
                &&& child.program_brk == old(self).cur_task().program_brk
            }),
            final (self).task_of(old(self).cur_pid()).children@ == old(
                self,
            ).cur_task().children@.push(old(self).next_pid),
            (TaskControlBlock {
                children: old(self).cur_task().children,
                ..final (self).task_of(old(self).cur_pid())
            }) == old(self).cur_task(),
            forall|p: usize|
                #[trigger] final (self).has_task(p) == (old(self).has_task(p) || p == old(
                    self,
                ).next_pid),
            forall|p: usize|
                old(self).has_task(p) && p != old(self).cur_pid()
                    ==> #[trigger] final (self).task_of(p) == old(self).task_of(p),
            final (self).ready@ == old(self).ready@.push(old(self).next_pid),
            final (self).current == old(self).current,
            final (self).clock_us == old(self).clock_us,
    {
        let ppid = self.current.unwrap();
        let pi = self.find_task(ppid).unwrap();
        let new_pid = self.next_pid;
        let child = fork_child(&self.tasks[pi], new_pid);
        self.link_child(pi, child);
        new_pid as isize
    }

    /// Create a child directly from a program image — no intermediate
    /// copy of the parent's address space — link it to the caller,
    /// queue it, and return its pid.
    pub fn sys_spawn(&mut self, image: &Vec<u8>) -> (r: isize)
        requires
            old(self).wf(),
            old(self).has_current(),
            old(self).next_pid < PID_CEILING,
            image@.len() <= BRK_CEILING,
        ensures
            final (self).wf(),
            r == old(self).next_pid as isize,
            final (self).next_pid == old(self).next_pid + 1,
            final (self).has_task(old(self).next_pid),
            ({
                let child = final (self).task_of(old(self).next_pid);
                &&& child.status == TaskStatus::Ready
                &&& child.parent == Some(old(self).cur_pid())
                &&& child.children@.len() == 0
                &&& child.priority == crate::config::DEFAULT_PRIORITY
                &&& child.stride == 0
                &&& zeroed_counts(child.syscall_cnt@)
                &&& !child.started
                &&& loads_image(child.addr_space, image@)
                &&& zeroed_regs(child.trap_ctx@)
                &&& child.heap_bottom == image_end(image@.len() as int)
                &&& child.program_brk == child.heap_bottom
            }),
            final (self).task_of(old(self).cur_pid()).children@ == old(
                self,
            ).cur_task().children@.push(old(self).next_pid),
            (TaskControlBlock {
                children: old(self).cur_task().children,
                ..final (self).task_of(old(self).cur_pid())
            }) == old(self).cur_task(),
            forall|p: usize|
                #[trigger] final (self).has_task(p) == (old(self).has_task(p) || p == old(
                    self,
                ).next_pid),
            forall|p: usize|
                old(self).has_task(p) && p != old(self).cur_pid()
                    ==> #[trigger] final (self).task_of(p) == old(self).task_of(p),
            final (self).ready@ == old(self).ready@.push(old(self).next_pid),
            final (self).current == old(self).current,
            final (self).clock_us == old(self).clock_us,
    {
        let ppid = self.current.unwrap();
        let pi = self.find_task(ppid).unwrap();
        let new_pid = self.next_pid;
        let child = task_from_image(new_pid, Some(ppid), image);
        self.link_child(pi, child);
        new_pid as isize
    }

    /// Link a freshly built child task under the parent at arena
    /// index `pi`, queue it, and hand out its pid.
    fn link_child(&mut self, pi: usize, child: TaskControlBlock)
        requires
            old(self).wf(),
            old(self).has_current(),
            pi as int == pid_index(old(self).tasks@, old(self).cur_pid()),
            pi < old(self).tasks@.len(),
            old(self).next_pid < PID_CEILING,
            child.wf(),
            child.pid == old(self).next_pid,
            child.status == TaskStatus::Ready,
            child.parent == Some(old(self).cur_pid()),
            child.children@.len() == 0,
            !child.started,
            child.init_time_us == 0,
        ensures
            final (self).wf(),
            final (self).next_pid == old(self).next_pid + 1,
            final (self).has_task(old(self).next_pid),
            final (self).task_of(old(self).next_pid) == child,
            final (self).task_of(old(self).cur_pid()).children@ == old(
                self,
            ).cur_task().children@.push(old(self).next_pid),
            (TaskControlBlock {
                children: old(self).cur_task().children,
                ..final (self).task_of(old(self).cur_pid())
            }) == old(self).cur_task(),
            forall|p: usize|
                #[trigger] final (self).has_task(p) == (old(self).has_task(p) || p == old(
                    self,
                ).next_pid),
            forall|p: usize|
                old(self).has_task(p) && p != old(self).cur_pid()
                    ==> #[trigger] final (self).task_of(p) == old(self).task_of(p),
            final (self).ready@ == old(self).ready@.push(old(self).next_pid),
            final (self).current == old(self).current,
            final (self).clock_us == old(self).clock_us,
    {
        let new_pid = self.next_pid;
        let ghost s0 = self.tasks@;
        proof {
            lemma_pid_index_unique(s0, pi as int);
            if has_pid(s0, new_pid) {
                let w = pid_index(s0, new_pid);
            }
        }
        let mut pt = self.tasks.remove(pi);
        pt.children.push(new_pid);
        self.tasks.insert(pi, pt);
        let ghost s1 = self.tasks@;
        proof {
            let tv = s1[pi as int];
            assert(s1 =~= s0.update(pi as int, tv));
            lemma_update_task(s0, pi as int, tv);
            if has_pid(s1, new_pid) {
                let w = pid_index(s1, new_pid);
            }
            lemma_push_task(s1, child);
        }
        self.tasks.push(child);
        self.ready.push(new_pid);
        self.next_pid = new_pid + 1;
        proof {
            lemma_family_link(s0, s1, self.tasks@, pi as int, child);
        }
    }

    /// Replace the current task's address space and trap context in
    /// place from a loaded program image; identity, family links and
    /// accounting counters are preserved.
    pub fn sys_exec(&mut self, image: &Vec<u8>) -> (r: isize)
        requires
            old(self).wf(),
            old(self).has_current(),
            image@.len() <= BRK_CEILING,
        ensures
            final (self).wf(),
            r == 0,
            same_but_cur(*old(self), *final (self)),
            loads_image(final (self).task_of(old(self).cur_pid()).addr_space, image@),
            zeroed_regs(final (self).task_of(old(self).cur_pid()).trap_ctx@),
            final (self).task_of(old(self).cur_pid()).heap_bottom == image_end(
                image@.len() as int,
            ),
            final (self).task_of(old(self).cur_pid()).program_brk == image_end(
                image@.len() as int,
            ),
            (TaskControlBlock {
                addr_space: old(self).cur_task().addr_space,
                trap_ctx: old(self).cur_task().trap_ctx,
                heap_bottom: old(self).cur_task().heap_bottom,
                program_brk: old(self).cur_task().program_brk,
                ..final (self).task_of(old(self).cur_pid())
            }) == old(self).cur_task(),
    {
        let pid = self.current.unwrap();
        let i = self.find_task(pid).unwrap();
        let ghost s0 = self.tasks@;
        let (space, brk) = crate::task::build_image_space(image);
        let mut t = self.tasks.remove(i);
        t.addr_space = space;
        t.trap_ctx = crate::task::fresh_trap_ctx();
        t.heap_bottom = brk;
        t.program_brk = brk;
        self.tasks.insert(i, t);
        proof {
            let ti = i as int;
            let tv = self.tasks@[ti];
            assert(self.tasks@ =~= s0.update(ti, tv));
            lemma_update_task(s0, ti, tv);
            lemma_family_update(s0, ti, tv);
        }
        0
    }

    /// Some child of the current task matches the wait target.
    pub open spec fn has_matching_child(self, pid: isize) -> bool {
        exists|i: int|
            0 <= i < self.cur_task().children@.len() && wait_matches(
                #[trigger] self.cur_task().children@[i],
                pid,
            )
    }

    /// The `i`-th child of the current task is a matching Zombie.
    pub open spec fn zombie_match_at(self, pid: isize, i: int) -> bool {
        &&& 0 <= i < self.cur_task().children@.len()
        &&& wait_matches(self.cur_task().children@[i], pid)
        &&& self.task_of(self.cur_task().children@[i]).status == TaskStatus::Zombie
    }

    pub open spec fn has_zombie_match(self, pid: isize) -> bool {
        exists|i: int| #[trigger] self.zombie_match_at(pid, i)
    }

    /// `i` is the first matching Zombie position on the list.
    pub open spec fn first_zombie_at(self, pid: isize, i: int) -> bool {
        self.zombie_match_at(pid, i) && (forall|j: int| 0 <= j < i ==> !self.zombie_match_at(pid, j))
    }

    pub open spec fn first_zombie_index(self, pid: isize) -> int {
        choose|i: int| self.first_zombie_at(pid, i)
    }

    /// Reap a terminated child.  With no child matching `pid` at all
    /// the call fails with -1; with matching children but none yet a
    /// Zombie it fails with -2; otherwise the earliest matching
    /// Zombie leaves its parent's children list and the arena — its
    /// single remaining owner releasing it — its exit code is written
    /// through `exit_code_ptr` into the caller's address space window
    /// by window, and its pid is returned.  A failed wait leaves the
    /// children list and everything else untouched.
    pub fn sys_waitpid(&mut self, pid: isize, exit_code_ptr: usize) -> (r: isize)
        requires
            old(self).wf(),
            old(self).has_current(),
            exit_code_ptr + 4 <= usize::MAX,
            old(self).has_zombie_match(pid) ==> old(self).cur_task().addr_space.span_mapped(
                exit_code_ptr as int,
                4,
            ),
        ensures
            final (self).wf(),
            !old(self).has_matching_child(pid) ==> r == -1 && same_state(*old(self), *final (self)),
            old(self).has_matching_child(pid) && !old(self).has_zombie_match(pid) ==> r == -2
                && same_state(*old(self), *final (self)),
            old(self).has_zombie_match(pid) ==> r == old(self).cur_task().children@[old(
                self,
            ).first_zombie_index(pid)] as isize && reaped(
                *old(self),
                *final (self),
                pid,
                exit_code_ptr,
            ),
    {
        let cp = self.current.unwrap();
        let ci = self.find_task(cp).unwrap();
        let nch = self.tasks[ci].children.len();
        let mut any_match = false;
        let mut k: usize = 0;
        while k < nch
            invariant
                self == old(self),
                self.wf(),
                self.has_current(),
                cp == self.cur_pid(),
                ci as int == pid_index(self.tasks@, cp),
                ci < self.tasks@.len(),
                nch == self.cur_task().children@.len(),
                k <= nch,
                any_match ==> self.has_matching_child(pid),
                !any_match ==> forall|j: int|
                    0 <= j < k ==> !wait_matches(#[trigger] self.cur_task().children@[j], pid),
            decreases nch - k,
        {
            let c = self.tasks[ci].children[k];
            if pid == -1 || (pid >= 0 && c == pid as usize) {
                any_match = true;
            }
            k += 1;
        }
        if !any_match {
            assert(!self.has_matching_child(pid));
            assert(!self.has_zombie_match(pid)) by {
                if self.has_zombie_match(pid) {
                    let j = choose|j: int| self.zombie_match_at(pid, j);
                }
            }
            return -1;
        }
        let mut found: usize = nch;
        let mut k2: usize = 0;
        while k2 < nch
            invariant
                self == old(self),
                self.wf(),
                self.has_current(),
                cp == self.cur_pid(),
                ci as int == pid_index(self.tasks@, cp),
                ci < self.tasks@.len(),
                nch == self.cur_task().children@.len(),
                k2 <= nch,
                found == nch || found < k2,
                found == nch ==> forall|j: int| 0 <= j < k2 ==> !self.zombie_match_at(pid, j),
                found < nch ==> self.first_zombie_at(pid, found as int),
            decreases nch - k2,
        {
            if found == nch {
                let c = self.tasks[ci].children[k2];
                if pid == -1 || (pid >= 0 && c == pid as usize) {
                    assert(has_pid(self.tasks@, c));
                    let ti2 = self.find_task(c).unwrap();
                    if self.tasks[ti2].status == TaskStatus::Zombie {
                        proof {
                            lemma_pid_index_unique(self.tasks@, ti2 as int);
                        }
                        found = k2;
                        assert(self.zombie_match_at(pid, k2 as int));
                    }
                }
            }
            k2 += 1;
        }
        if found == nch {
            assert(!self.has_zombie_match(pid)) by {
                if self.has_zombie_match(pid) {
                    let j = choose|j: int| self.zombie_match_at(pid, j);
                }
            }
            return -2;
        }
        proof {
            lemma_first_zombie_unique(*self, pid, found as int);
        }
        let cpid2 = self.tasks[ci].children[found];
        assert(has_pid(self.tasks@, cpid2));
        let zi = self.find_task(cpid2).unwrap();
        let code = self.tasks[zi].exit_code;
        let ghost s0 = self.tasks@;
        proof {
            lemma_pid_index_unique(s0, zi as int);
            assert(task_with(s0, cpid2).status == TaskStatus::Zombie);
            assert(cpid2 != cp);
            assert(zi != ci);
        }
        let mut cur_t = self.tasks.remove(ci);
        cur_t.children.remove(found);
        let data = crate::records::encode_i32(code);
        cur_t.addr_space.write_bytes(exit_code_ptr, &data);
        self.tasks.insert(ci, cur_t);
        let ghost s1 = self.tasks@;
        proof {
            let tv = s1[ci as int];
            assert(s1 =~= s0.update(ci as int, tv));
            lemma_update_task(s0, ci as int, tv);
        }
        self.tasks.remove(zi);
        proof {
            assert(s1[zi as int] == s0[zi as int]);
            assert(self.tasks@ == s1.remove(zi as int));
            lemma_remove_task(s1, zi as int);
            lemma_family_reap(s0, s1, self.tasks@, ci as int, found as int, zi as int);
            assert forall|q: int|
                0 <= q < self.ready@.len() implies has_pid(
                self.tasks@,
                #[trigger] self.ready@[q],
            ) && task_with(self.tasks@, self.ready@[q]).status == TaskStatus::Ready by {
                let p = old(self).ready@[q];
                assert(has_pid(s0, p) && task_with(s0, p).status == TaskStatus::Ready);
                assert(p != cpid2);
                assert(p != cp);
            }
        }
        proof {
            lemma_pid_index_unique(s0, ci as int);
        }
        cpid2 as isize
    }
}

/// `c` matches the wait target: -1 waits for any child.
pub open spec fn wait_matches(c: usize, pid: isize) -> bool {
    pid == -1 || c as int == pid as int
}

/// The first matching Zombie position is unique.
pub proof fn lemma_first_zombie_unique(k: Kernel, pid: isize, i: int)
    requires
        k.first_zombie_at(pid, i),
    ensures
        k.has_zombie_match(pid),
        k.first_zombie_index(pid) == i,
{
    assert(k.zombie_match_at(pid, i));
    let j = k.first_zombie_index(pid);
    assert(k.first_zombie_at(pid, j));
    if j < i {
        assert(!k.zombie_match_at(pid, j));
    }
    if i < j {
        assert(!k.zombie_match_at(pid, i));
    }
}

/// The step from `pre` to `post` reaped the earliest matching Zombie
/// child: it left its parent's children list and the arena, its exit
/// code was written at `ptr` into the caller's space, and nothing
/// else changed.
pub open spec fn reaped(pre: Kernel, post: Kernel, pid: isize, ptr: usize) -> bool {
    let i = pre.first_zombie_index(pid);
    let c = pre.cur_task().children@[i];
    let child = pre.task_of(c);
    let cp = pre.cur_pid();
    let pre_space = pre.cur_task().addr_space;
    let post_space = post.task_of(cp).addr_space;
    &&& pre.first_zombie_at(pid, i)
    &&& !post.has_task(c)
    &&& forall|p: usize| p != c ==> #[trigger] post.has_task(p) == pre.has_task(p)
    &&& forall|p: usize|
        pre.has_task(p) && p != c && p != cp ==> #[trigger] post.task_of(p) == pre.task_of(p)
    &&& post.task_of(cp).children@ == pre.cur_task().children@.remove(i)
    &&& (TaskControlBlock {
        children: pre.cur_task().children,
        addr_space: pre_space,
        ..post.task_of(cp)
    }) == pre.cur_task()
    &&& forall|v: int| #[trigger] post_space.is_mapped(v) == pre_space.is_mapped(v)
    &&& forall|k: int|
        0 <= k < 4 ==> #[trigger] post_space.byte_at(ptr + k) == crate::records::i32_le(
            child.exit_code,
        )[k]
    &&& forall|b: int|
        pre_space.is_mapped(#[trigger] vpn_of(b)) && !(ptr <= b < ptr + 4)
            ==> post_space.byte_at(b) == pre_space.byte_at(b)
    &&& post.ready@ == pre.ready@
    &&& post.current == pre.current
    &&& post.next_pid == pre.next_pid
    &&& post.clock_us == pre.clock_us
}

/// Reaping preserves the family bookkeeping: the reaped pid sat on
/// exactly one children list — its parent's, at one position — so
/// after the removal no list mentions it.
pub proof fn lemma_family_reap(
    s0: Seq<TaskControlBlock>,
    s1: Seq<TaskControlBlock>,
    s2: Seq<TaskControlBlock>,
    ci: int,
    found: int,
    zi: int,
)
    requires
        distinct_pids(s0),
        family_ok(s0),
        0 <= ci < s0.len(),
        0 <= zi < s0.len(),
        zi != ci,
        0 <= found < s0[ci].children@.len(),
        s0[ci].children@[found] == s0[zi].pid,
        s1.len() == s0.len(),
        forall|k: int| 0 <= k < s0.len() && k != ci ==> s1[k] == s0[k],
        s1[ci].pid == s0[ci].pid,
        s1[ci].parent == s0[ci].parent,
        s1[ci].children@ == s0[ci].children@.remove(found),
        s2 == s1.remove(zi),
    ensures
        distinct_pids(s2),
        family_ok(s2),
{
    let rp = s0[zi].pid;
    assert(s1 =~= s0.update(ci, s1[ci]));
    lemma_update_task(s0, ci, s1[ci]);
    lemma_remove_task(s1, zi);
    assert(s1[zi] == s0[zi]);
    lemma_pid_index_unique(s0, ci);
    lemma_pid_index_unique(s0, zi);
    // no list of s1 mentions the reaped pid
    assert forall|x: int, c: int|
        0 <= x < s1.len() && 0 <= c < s1[x].children@.len() implies (#[trigger] s1[x].children@[c])
            != rp by {
        if x == ci {
            let c0 = if c < found {
                c
            } else {
                c + 1
            };
            assert(s1[ci].children@[c] == s0[ci].children@[c0]);
            if s0[ci].children@[c0] == rp {
                assert(s0[ci].children@[found] == s0[ci].children@[c0]);
            }
        } else {
            if s0[x].children@[c] == rp {
                assert(task_with(s0, rp).parent == Some(s0[x].pid));
                assert(task_with(s0, rp).parent == Some(s0[ci].pid));
                assert(has_pid(s0, s0[x].pid));
                lemma_pid_index_unique(s0, x);
            }
        }
    }
    assert forall|x: int, c: int|
        0 <= x < s2.len() && 0 <= c < s2[x].children@.len() implies has_pid(
        s2,
        #[trigger] s2[x].children@[c],
    ) && task_with(s2, s2[x].children@[c]).parent == Some(s2[x].pid) by {
        let x1 = if x < zi {
            x
        } else {
            x + 1
        };
        assert(s2[x] == s1[x1]);
        let q = s1[x1].children@[c];
        assert(q != rp);
        // q is an entry of some s0 list
        let qparent: Option<usize> = if x1 == ci {
            let c0 = if c < found {
                c
            } else {
                c + 1
            };
            assert(q == s0[ci].children@[c0]);
            assert(has_pid(s0, q));
            assert(task_with(s0, q).parent == Some(s0[ci].pid));
            Some(s0[ci].pid)
        } else {
            assert(q == s0[x1].children@[c]);
            assert(has_pid(s0, q));
            assert(task_with(s0, q).parent == Some(s0[x1].pid));
            Some(s0[x1].pid)
        };
        assert(has_pid(s1, q));
        assert(has_pid(s2, q));
        assert(task_with(s2, q) == task_with(s1, q));
        if q == s0[ci].pid {
            assert(task_with(s1, q) == s1[ci]);
            assert(task_with(s0, q) == s0[ci]);
            assert(task_with(s1, q).parent == task_with(s0, q).parent);
        } else {
            assert(task_with(s1, q) == task_with(s0, q));
        }
        assert(s2[x].pid == s0[x1].pid);
    }
    assert forall|x: int, c1: int, c2: int|
        0 <= x < s2.len() && 0 <= c1 < c2 < s2[x].children@.len() implies (
    #[trigger] s2[x].children@[c1]) != (#[trigger] s2[x].children@[c2]) by {
        let x1 = if x < zi {
            x
        } else {
            x + 1
        };
        assert(s2[x] == s1[x1]);
        if x1 == ci {
            let d1 = if c1 < found {
                c1
            } else {
                c1 + 1
            };
            let d2 = if c2 < found {
                c2
            } else {
                c2 + 1
            };
            assert(s1[ci].children@[c1] == s0[ci].children@[d1]);
            assert(s1[ci].children@[c2] == s0[ci].children@[d2]);
            assert(s0[ci].children@[d1] != s0[ci].children@[d2]);
        } else {
            assert(s0[x1].children@[c1] != s0[x1].children@[c2]);
        }
    }
}

/// Linking a fresh child preserves the family bookkeeping: the
/// parent's list gains the child's previously unused pid, and the
/// child joins the arena owning no children.
pub proof fn lemma_family_link(
    s0: Seq<TaskControlBlock>,
    s1: Seq<TaskControlBlock>,
    s2: Seq<TaskControlBlock>,
    pi: int,
    child: TaskControlBlock,
)
    requires
        distinct_pids(s0),
        family_ok(s0),
        0 <= pi < s0.len(),
        !has_pid(s0, child.pid),
        s1.len() == s0.len(),
        forall|k: int| 0 <= k < s0.len() && k != pi ==> s1[k] == s0[k],
        s1[pi].pid == s0[pi].pid,
        s1[pi].parent == s0[pi].parent,
        s1[pi].children@ == s0[pi].children@.push(child.pid),
        s2 == s1.push(child),
        child.parent == Some(s0[pi].pid),
        child.children@.len() == 0,
    ensures
        family_ok(s2),
{
    assert(s1 =~= s0.update(pi, s1[pi]));
    lemma_update_task(s0, pi, s1[pi]);
    lemma_push_task(s1, child);
    lemma_pid_index_unique(s0, pi);
    assert forall|x: int, c: int|
        0 <= x < s2.len() && 0 <= c < s2[x].children@.len() implies has_pid(
        s2,
        #[trigger] s2[x].children@[c],
    ) && task_with(s2, s2[x].children@[c]).parent == Some(s2[x].pid) by {
        if x < s1.len() {
            assert(s2[x] == s1[x]);
            let q = s1[x].children@[c];
            if x == pi && c == s0[pi].children@.len() {
                assert(q == child.pid);
                assert(task_with(s2, child.pid) == child);
                assert(s2[x].pid == s0[pi].pid);
            } else {
                assert(q == s0[x].children@[c]);
                assert(has_pid(s0, q));
                assert(task_with(s0, q).parent == Some(s0[x].pid));
                assert(q != child.pid);
                assert(task_with(s1, q) == if q == s0[pi].pid {
                    s1[pi]
                } else {
                    task_with(s0, q)
                }) by {
                    if q == s0[pi].pid {
                        assert(task_with(s1, s1[pi].pid) == s1[pi]);
                    }
                }
                assert(task_with(s2, q) == task_with(s1, q));
                assert(task_with(s1, q).parent == task_with(s0, q).parent);
                assert(s2[x].pid == s0[x].pid);
            }
        } else {
            assert(s2[x] == child);
        }
    }
    assert forall|x: int, c1: int, c2: int|
        0 <= x < s2.len() && 0 <= c1 < c2 < s2[x].children@.len() implies (
    #[trigger] s2[x].children@[c1]) != (#[trigger] s2[x].children@[c2]) by {
        if x < s1.len() {
            if x == pi {
                if c2 == s0[pi].children@.len() {
                    let e = s0[pi].children@[c1];
                    assert(has_pid(s0, e));
                } else {
                    assert(s0[pi].children@[c1] != s0[pi].children@[c2]);
                }
            } else {
                assert(s2[x] == s0[x]);
                assert(s0[x].children@[c1] != s0[x].children@[c2]);
            }
        }
    }
}

/// Bytes `get_time` writes when the clock reads `clock_us`.
pub open spec fn time_val_record(clock_us: usize) -> Seq<u8> {
    (TimeVal { sec: (clock_us / 1_000_000) as usize, usec: (clock_us % 1_000_000) as usize }).bytes_of()
}

/// Law: time readings taken in sequence are non-decreasing.  Every
/// kernel operation keeps `clock_us` or grows it, and of two clock
/// readings the later one never decodes to an earlier second, nor to
/// an earlier microsecond within the same second.
pub proof fn lemma_time_readings_monotone(c1: usize, c2: usize)
    requires
        c1 <= c2,
    ensures
        c1 / 1_000_000 <= c2 / 1_000_000,
        c1 / 1_000_000 == c2 / 1_000_000 ==> c1 % 1_000_000 <= c2 % 1_000_000,
{
    vstd::arithmetic::div_mod::lemma_div_is_ordered(c1 as int, c2 as int, 1_000_000);
    vstd::arithmetic::div_mod::lemma_fundamental_div_mod(c1 as int, 1_000_000);
    vstd::arithmetic::div_mod::lemma_fundamental_div_mod(c2 as int, 1_000_000);
}

/// Bytes `task_info` writes for the current task of `k`.
pub open spec fn task_info_record(k: Kernel) -> Seq<u8> {
    seq![crate::records::status_code(TaskStatus::Running)] + crate::records::counts_le(
        k.cur_task().syscall_cnt@,
    ) + crate::records::u64_le(((k.clock_us - k.cur_task().init_time_us) / 1000) as u64)
}

/// Observable kernel state `post` equals `pre`: same queue, current
/// task, clock, pid supply, and every live task unchanged.
pub open spec fn same_state(pre: Kernel, post: Kernel) -> bool {
    &&& post.current == pre.current
    &&& post.ready@ == pre.ready@
    &&& post.next_pid == pre.next_pid
    &&& post.clock_us == pre.clock_us
    &&& forall|p: usize| #[trigger] post.has_task(p) == pre.has_task(p)
    &&& forall|p: usize| pre.has_task(p) ==> #[trigger] post.task_of(p) == pre.task_of(p)
}

/// Everything outside the current task's control block is unchanged.
pub open spec fn same_but_cur(pre: Kernel, post: Kernel) -> bool {
    &&& post.current == pre.current
    &&& post.ready@ == pre.ready@
    &&& post.next_pid == pre.next_pid
    &&& post.clock_us == pre.clock_us
    &&& forall|p: usize| #[trigger] post.has_task(p) == pre.has_task(p)
    &&& forall|p: usize|
        pre.has_task(p) && p != pre.cur_pid() ==> #[trigger] post.task_of(p) == pre.task_of(p)
}

/// The step from `pre` to `post` wrote exactly `data` at virtual
/// address `addr` of the current task's address space — every byte of
/// the span landed, whatever page boundaries it straddles — and
/// changed nothing else.
pub open spec fn wrote_user_bytes(pre: Kernel, post: Kernel, data: Seq<u8>, addr: usize) -> bool {
    let cp = pre.cur_pid();
    let pre_space = pre.cur_task().addr_space;
    let post_space = post.task_of(cp).addr_space;
    &&& same_but_cur(pre, post)
    &&& (TaskControlBlock { addr_space: pre_space, ..post.task_of(cp) }) == pre.cur_task()
    &&& forall|v: int| #[trigger] post_space.is_mapped(v) == pre_space.is_mapped(v)
    &&& forall|v: int|
        pre_space.is_mapped(v) ==> (#[trigger] post_space.page_at(v)).vpn == pre_space.page_at(
            v,
        ).vpn && post_space.page_at(v).perm == pre_space.page_at(v).perm
    &&& forall|k: int| 0 <= k < data.len() ==> #[trigger] post_space.byte_at(addr + k) == data[k]
    &&& forall|b: int|
        pre_space.is_mapped(#[trigger] vpn_of(b)) && !(addr <= b < addr + data.len())
            ==> post_space.byte_at(b) == pre_space.byte_at(b)
}

/// New stride after one dispatch: the stride grows by the task's
/// pass, saturating at the integer's ceiling (a bound no practical
/// run approaches, chosen so the increment is always defined).
pub open spec fn bumped_stride(t: TaskControlBlock) -> u64 {
    if t.stride <= u64::MAX - BIG_STRIDE / t.priority {
        (t.stride + BIG_STRIDE / t.priority) as u64
    } else {
        u64::MAX
    }
}

/// Stride totals and dispatch counts of a run of rounds between two
/// ever-ready tasks with passes `pa` and `pb`: each round charges the
/// task with the smaller total its own pass — the first of the two on
/// ties — exactly the selection rule `dispatch_next` is specified to
/// follow (`min_stride_choice` with `bumped_stride`).  Returns
/// `(stride_a, stride_b, count_a, count_b)` after `n` rounds.
pub open spec fn stride_rounds(n: nat, pa: nat, pb: nat) -> (nat, nat, nat, nat)
    decreases n,
{
    if n == 0 {
        (0, 0, 0, 0)
    } else {
        let r = stride_rounds((n - 1) as nat, pa, pb);
        if r.0 <= r.1 {
            ((r.0 + pa) as nat, r.1, (r.2 + 1) as nat, r.3)
        } else {
            (r.0, (r.1 + pb) as nat, r.2, (r.3 + 1) as nat)
        }
    }
}

/// After any number of rounds, each stride total is its task's count
/// of dispatches times its pass, and the two totals never drift apart
/// by more than one pass.
pub proof fn lemma_stride_rounds_invariant(n: nat, pa: nat, pb: nat)
    ensures
        ({
            let r = stride_rounds(n, pa, pb);
            &&& r.0 == r.2 * pa
            &&& r.1 == r.3 * pb
            &&& r.2 + r.3 == n
            &&& r.0 <= r.1 + pa
            &&& r.1 <= r.0 + pb
        }),
    decreases n,
{
    if n == 0 {
        assert((0 as nat) * pa == 0) by (nonlinear_arith);
        assert((0 as nat) * pb == 0) by (nonlinear_arith);
    } else {
        lemma_stride_rounds_invariant((n - 1) as nat, pa, pb);
        let r0 = stride_rounds((n - 1) as nat, pa, pb);
        let r = stride_rounds(n, pa, pb);
        assert(((r0.2 + 1) as nat) * pa == r0.2 * pa + pa) by (nonlinear_arith);
        assert(((r0.3 + 1) as nat) * pb == r0.3 * pb + pb) by (nonlinear_arith);
        if r0.0 <= r0.1 {
            assert(r == ((r0.0 + pa) as nat, r0.1, (r0.2 + 1) as nat, r0.3));
            assert(r.0 == r.2 * pa);
        } else {
            assert(r == (r0.0, (r0.1 + pb) as nat, r0.2, (r0.3 + 1) as nat));
            assert(r.1 == r.3 * pb);
        }
    }
}

/// Law: over any run of rounds between two ever-ready tasks of
/// priority 2 and priority 4 — passes `2 * q` and `q` — the
/// higher-priority task is dispatched twice as often as the other,
/// within a constant: `2 * count_a - 2 <= count_b <= 2 * count_a + 1`.
pub proof fn lemma_stride_fairness_two_to_one(n: nat, q: nat)
    requires
        q > 0,
    ensures
        ({
            let r = stride_rounds(n, (2 * q) as nat, q);
            &&& r.2 + r.3 == n
            &&& r.3 + 2 >= 2 * r.2
            &&& r.3 <= 2 * r.2 + 1
        }),
{
    let pa = (2 * q) as nat;
    lemma_stride_rounds_invariant(n, pa, q);
    let r = stride_rounds(n, pa, q);
    assert(r.2 * pa <= r.3 * q + pa && r.3 * q <= r.2 * pa + q ==> r.3 + 2 >= 2 * r.2 && r.3 <= 2
        * r.2 + 1) by (nonlinear_arith)
        requires
            q > 0,
            pa == 2 * q,
    ;
}

/// The stride scheduler's selection is unique: ties break by queue
/// order, so two selections would order each other strictly both
/// ways.
pub proof fn lemma_min_choice_unique(k: Kernel, j: int)
    requires
        k.min_stride_choice(j),
    ensures
        k.chosen_ready_index() == j,
{
    let j2 = k.chosen_ready_index();
    assert(k.min_stride_choice(j2));
    if j2 < j {
        assert(k.stride_at(j) < k.stride_at(j2));
        assert(k.stride_at(j2) <= k.stride_at(j));
    }
    if j < j2 {
        assert(k.stride_at(j2) < k.stride_at(j));
        assert(k.stride_at(j) <= k.stride_at(j2));
    }
}

/// Replacing a task by one with the same pid, children and parent
/// preserves the family bookkeeping.
pub proof fn lemma_family_update(s: Seq<TaskControlBlock>, i: int, t: TaskControlBlock)
    requires
        distinct_pids(s),
        family_ok(s),
        0 <= i < s.len(),
        t.pid == s[i].pid,
        t.children == s[i].children,
        t.parent == s[i].parent,
    ensures
        family_ok(s.update(i, t)),
{
    let s1 = s.update(i, t);
    lemma_update_task(s, i, t);
    lemma_pid_index_unique(s, i);
    assert forall|x: int, c: int|
        0 <= x < s1.len() && 0 <= c < s1[x].children@.len() implies has_pid(
        s1,
        #[trigger] s1[x].children@[c],
    ) && task_with(s1, s1[x].children@[c]).parent == Some(s1[x].pid) by {
        assert(s1[x].children == s[x].children);
        let q = s[x].children@[c];
        assert(has_pid(s, q));
        assert(task_with(s, q).parent == Some(s[x].pid));
        if q == t.pid {
            assert(task_with(s, q) == s[i]);
            assert(task_with(s1, q) == t);
        } else {
            assert(task_with(s1, q) == task_with(s, q));
        }
        assert(s1[x].pid == s[x].pid);
    }
    assert forall|x: int, c1: int, c2: int|
        0 <= x < s1.len() && 0 <= c1 < c2 < s1[x].children@.len() implies (
    #[trigger] s1[x].children@[c1]) != (#[trigger] s1[x].children@[c2]) by {
        assert(s1[x].children == s[x].children);
        assert(s[x].children@[c1] != s[x].children@[c2]);
    }
}

/// Appending a childless, parentless-or-correctly-parented task
/// whose pid is fresh preserves the family bookkeeping, provided the
/// new task has no children and sits on no children list.
pub proof fn lemma_family_grow(s0: Seq<TaskControlBlock>, s1: Seq<TaskControlBlock>, pid: usize)
    requires
        family_ok(s0),
        distinct_pids(s0),
        s1.len() == s0.len() + 1,
        forall|i: int| 0 <= i < s0.len() ==> s1[i] == s0[i],
        s1.last().pid == pid,
        !has_pid(s0, pid),
        s1.last().children@.len() == 0,
    ensures
        family_ok(s1),
{
    lemma_push_task(s0, s1.last());
    assert(s1 =~= s0.push(s1.last()));
    assert forall|i: int, c: int|
        0 <= i < s1.len() && 0 <= c < s1[i].children@.len() implies has_pid(
        s1,
        #[trigger] s1[i].children@[c],
    ) && task_with(s1, s1[i].children@[c]).parent == Some(s1[i].pid) by {
        assert(i < s0.len());
        assert(s1[i] == s0[i]);
        assert(has_pid(s0, s0[i].children@[c]));
        assert(task_with(s0, s0[i].children@[c]).parent == Some(s0[i].pid));
        assert(task_with(s1, s0[i].children@[c]) == task_with(s0, s0[i].children@[c]));
    }
    assert forall|i: int, c1: int, c2: int|
        0 <= i < s1.len() && 0 <= c1 < c2 < s1[i].children@.len() implies (
    #[trigger] s1[i].children@[c1]) != (#[trigger] s1[i].children@[c2]) by {
        assert(i < s0.len());
        assert(s1[i] == s0[i]);
        assert(s0[i].children@[c1] != s0[i].children@[c2]);
    }
}

} // verus!
