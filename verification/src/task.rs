//! The task control block: per-task identity, status, scheduling
//! fields, accounting counters, family links, trap context and the
//! owned address space, with the operations that act on a single task.

use vstd::prelude::*;
use crate::config::{
    PAGE_SIZE, MAX_SYSCALL_NUM, DEFAULT_PRIORITY, TRAP_REG_COUNT, RETVAL_REG, BRK_CEILING,
};
use crate::mem::{AddressSpace, vpn_of, space_equiv, loads_image, image_pages};

verus! {

/// Life-cycle status of a task.  A task moves Ready to Running to
/// Ready or Zombie, and never leaves Zombie.
#[derive(Clone, Copy, PartialEq, Eq, Structural, Debug)]
pub enum TaskStatus {
    Ready,
    Running,
    Zombie,
}

/// Per-task state record.
pub struct TaskControlBlock {
    /// Process-unique identifier, immutable after creation.
    pub pid: usize,
    /// Life-cycle status.
    pub status: TaskStatus,
    /// Pid of the creating task; the root task has none.
    pub parent: Option<usize>,
    /// Child pids, oldest first; a successful reap removes a child
    /// from the list exactly once.
    pub children: Vec<usize>,
    /// Exit code, set once at termination.
    pub exit_code: i32,
    /// Scheduling priority, at least 2.
    pub priority: u64,
    /// Stride-scheduling accumulator.
    pub stride: u64,
    /// Invocation count per syscall identifier, reset only at creation.
    pub syscall_cnt: Vec<u32>,
    /// Whether the task was ever dispatched.
    pub started: bool,
    /// Clock reading (microseconds) at first dispatch.
    pub init_time_us: usize,
    /// Floor of the heap-growth region.
    pub heap_bottom: usize,
    /// Current program break, adjusted by `sbrk`.
    pub program_brk: usize,
    /// Saved user-mode register snapshot.
    pub trap_ctx: Vec<usize>,
    /// The task's virtual memory areas.
    pub addr_space: AddressSpace,
}

/// `s` is an all-zero syscall accounting table.
pub open spec fn zeroed_counts(s: Seq<u32>) -> bool {
    s.len() == MAX_SYSCALL_NUM && forall|i: int| 0 <= i < s.len() ==> s[i] == 0u32
}

/// `s` is an all-zero trap context.
pub open spec fn zeroed_regs(s: Seq<usize>) -> bool {
    s.len() == TRAP_REG_COUNT && forall|i: int| 0 <= i < s.len() ==> s[i] == 0usize
}

/// First byte above the image: the image's length rounded up to a
/// full page, where the heap of a freshly loaded task begins.
pub open spec fn image_end(len: int) -> int {
    image_pages(len) * (PAGE_SIZE as int)
}

impl TaskControlBlock {
    /// Internal consistency of one task.
    pub open spec fn wf(self) -> bool {
        &&& self.priority >= 2
        &&& self.syscall_cnt@.len() == MAX_SYSCALL_NUM
        &&& self.trap_ctx@.len() == TRAP_REG_COUNT
        &&& self.addr_space.wf()
        &&& self.heap_bottom <= self.program_brk <= BRK_CEILING
    }

    /// Requested program break after `sbrk(size)`.
    pub open spec fn sbrk_target(self, size: i32) -> int {
        self.program_brk as int + size as int
    }

    /// First page a growing break would newly cover.
    pub open spec fn sbrk_grow_lo(self) -> int {
        vpn_of(self.program_brk as int)
    }

    /// One past the last page a growing break would newly cover.
    pub open spec fn sbrk_grow_hi(self, size: i32) -> int {
        (self.sbrk_target(size) + PAGE_SIZE as int - 1) / (PAGE_SIZE as int)
    }

    /// `sbrk(size)` succeeds: the new break stays within the heap
    /// region's floor and ceiling, and a growing break does not run
    /// into any existing mapping.
    pub open spec fn sbrk_accepts(self, size: i32) -> bool {
        &&& self.heap_bottom as int <= self.sbrk_target(size)
        &&& self.sbrk_target(size) <= BRK_CEILING as int
        &&& size > 0 ==> self.addr_space.range_free(self.sbrk_grow_lo(), self.sbrk_grow_hi(size))
    }

    /// Grow or shrink the heap-growth region by `size` bytes.
    /// Returns the previous break on success; fails when the new
    /// break would sink below the region's floor, pass the ceiling,
    /// or grow into an existing mapping.
    pub fn change_program_brk(&mut self, size: i32) -> (r: Option<usize>)
        requires
            old(self).wf(),
        ensures
            final (self).wf(),
            old(self).sbrk_accepts(size) ==> r == Some(old(self).program_brk) && *final (self) == (
            TaskControlBlock {
                program_brk: old(self).sbrk_target(size) as usize,
                ..*old(self)
            }),
            !old(self).sbrk_accepts(size) ==> r == None::<usize> && *final (self) == *old(self),
    {
        let old_brk = self.program_brk;
        let target_i: i64 = old_brk as i64 + size as i64;
        if target_i < self.heap_bottom as i64 || target_i > BRK_CEILING as i64 {
            return None;
        }
        let target = target_i as usize;
        if size > 0 {
            let lo = old_brk / PAGE_SIZE;
            let hi = (target + (PAGE_SIZE - 1)) / PAGE_SIZE;
            let mut v = lo;
            while v < hi
                invariant
                    self == old(self),
                    self.wf(),
                    size > 0,
                    lo <= v <= hi,
                    lo == self.sbrk_grow_lo(),
                    hi == self.sbrk_grow_hi(size),
                    forall|w: int| lo <= w < v ==> !self.addr_space.is_mapped(w),
                decreases hi - v,
            {
                if self.addr_space.find_page(v).is_some() {
                    return None;
                }
                v += 1;
            }
        }
        self.program_brk = target;
        Some(old_brk)
    }

    /// Update the scheduling priority.  Fails for any value below 2,
    /// since the stride formula needs a strictly positive, boundable
    /// pass increment; otherwise returns the new priority.
    pub fn set_priority(&mut self, prio: isize) -> (r: isize)
        requires
            old(self).wf(),
        ensures
            final (self).wf(),
            prio >= 2 ==> r == prio && *final (self) == (TaskControlBlock {
                priority: prio as u64,
                ..*old(self)
            }),
            prio < 2 ==> r == -1 && *final (self) == *old(self),
    {
        if prio < 2 {
            return -1;
        }
        self.priority = prio as u64;
        prio
    }
}

/// An all-zero syscall accounting table.
pub fn fresh_counts() -> (r: Vec<u32>)
    ensures
        zeroed_counts(r@),
{
    let mut r: Vec<u32> = Vec::new();
    let mut i: usize = 0;
    while i < MAX_SYSCALL_NUM
        invariant
            r@.len() == i,
            i <= MAX_SYSCALL_NUM,
            forall|k: int| 0 <= k < i ==> r@[k] == 0u32,
        decreases MAX_SYSCALL_NUM - i,
    {
        r.push(0u32);
        i += 1;
    }
    r
}

/// An all-zero trap context.
pub fn fresh_trap_ctx() -> (r: Vec<usize>)
    ensures
        zeroed_regs(r@),
{
    let mut r: Vec<usize> = Vec::new();
    let mut i: usize = 0;
    while i < TRAP_REG_COUNT
        invariant
            r@.len() == i,
            i <= TRAP_REG_COUNT,
            forall|k: int| 0 <= k < i ==> r@[k] == 0usize,
        decreases TRAP_REG_COUNT - i,
    {
        r.push(0usize);
        i += 1;
    }
    r
}

/// A brand-new task built from a program image: default scheduling
/// fields, zeroed accounting, a fresh trap context, and an address
/// space holding exactly the image, with the heap floor and break at
/// the image's end.
pub fn task_from_image(pid: usize, parent: Option<usize>, image: &Vec<u8>) -> (t: TaskControlBlock)
    requires
        image@.len() <= BRK_CEILING,
    ensures
        t.wf(),
        t.pid == pid,
        t.status == TaskStatus::Ready,
        t.parent == parent,
        t.children@.len() == 0,
        t.exit_code == 0,
        t.priority == DEFAULT_PRIORITY,
        t.stride == 0,
        zeroed_counts(t.syscall_cnt@),
        !t.started,
        t.init_time_us == 0,
        loads_image(t.addr_space, image@),
        t.heap_bottom == image_end(image@.len() as int),
        t.program_brk == t.heap_bottom,
        zeroed_regs(t.trap_ctx@),
{
    let (space, brk) = build_image_space(image);
    TaskControlBlock {
        pid,
        status: TaskStatus::Ready,
        parent,
        children: Vec::new(),
        exit_code: 0,
        priority: DEFAULT_PRIORITY,
        stride: 0,
        syscall_cnt: fresh_counts(),
        started: false,
        init_time_us: 0,
        heap_bottom: brk,
        program_brk: brk,
        trap_ctx: fresh_trap_ctx(),
        addr_space: space,
    }
}

/// The address space for a program image, together with the first
/// byte above it, where the heap begins.
pub fn build_image_space(image: &Vec<u8>) -> (r: (AddressSpace, usize))
    requires
        image@.len() <= BRK_CEILING,
    ensures
        loads_image(r.0, image@),
        r.1 == image_end(image@.len() as int),
        r.1 <= BRK_CEILING,
{
    let len = image.len();
    let space = crate::mem::load_image(image);
    let npages = (len + (PAGE_SIZE - 1)) / PAGE_SIZE;
    proof {
        let p = PAGE_SIZE as int;
        let l = len as int;
        assert(npages == image_pages(l));
        vstd::arithmetic::div_mod::lemma_hoist_over_denominator(l - 1, 1, PAGE_SIZE as nat);
        assert((l - 1) / p + 1 == (l + p - 1) / p);
        vstd::arithmetic::div_mod::lemma_div_is_ordered(l - 1, BRK_CEILING as int - 1, p);
        assert((l - 1) / p <= (BRK_CEILING as int - 1) / p);
        assert((BRK_CEILING as int - 1) / p == 0x3fff_e as int);
        assert(image_pages(l) <= 0x3fff_f);
        assert(image_pages(l) * p <= 0x3fff_f * p) by (nonlinear_arith)
            requires
                image_pages(l) <= 0x3fff_f,
                p > 0,
        ;
        assert(0 <= image_pages(l)) by {
            vstd::arithmetic::div_mod::lemma_div_is_ordered(0, l + p - 1, p);
        }
    }
    let brk = npages * PAGE_SIZE;
    (space, brk)
}

/// A forked child of `parent`: a full copy of the parent's address
/// space, trap context (with the return-value register cleared so the
/// child observes 0), break and priority, with fresh identity,
/// zeroed accounting and default stride.
pub fn fork_child(parent: &TaskControlBlock, pid: usize) -> (t: TaskControlBlock)
    requires
        parent.wf(),
    ensures
        t.wf(),
        t.pid == pid,
        t.status == TaskStatus::Ready,
        t.parent == Some(parent.pid),
        t.children@.len() == 0,
        t.exit_code == 0,
        t.priority == parent.priority,
        t.stride == 0,
        zeroed_counts(t.syscall_cnt@),
        !t.started,
        t.init_time_us == 0,
        space_equiv(parent.addr_space, t.addr_space),
        t.heap_bottom == parent.heap_bottom,
        t.program_brk == parent.program_brk,
        t.trap_ctx@ == parent.trap_ctx@.update(RETVAL_REG as int, 0usize),
{
    let mut trap_ctx: Vec<usize> = Vec::new();
    let n = parent.trap_ctx.len();
    for i in 0..n
        invariant
            n == parent.trap_ctx@.len(),
            trap_ctx@.len() == i,
            forall|k: int| 0 <= k < i ==> trap_ctx@[k] == parent.trap_ctx@[k],
    {
        trap_ctx.push(parent.trap_ctx[i]);
    }
    trap_ctx[RETVAL_REG] = 0;
    proof {
        assert(trap_ctx@ =~= parent.trap_ctx@.update(RETVAL_REG as int, 0usize));
    }
    TaskControlBlock {
        pid,
        status: TaskStatus::Ready,
        parent: Some(parent.pid),
        children: Vec::new(),
        exit_code: 0,
        priority: parent.priority,
        stride: 0,
        syscall_cnt: fresh_counts(),
        started: false,
        init_time_us: 0,
        heap_bottom: parent.heap_bottom,
        program_brk: parent.program_brk,
        trap_ctx,
        addr_space: parent.addr_space.duplicate(),
    }
}

} // verus!
