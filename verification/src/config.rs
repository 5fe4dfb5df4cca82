use vstd::prelude::*;

verus! {

/// Bytes in one virtual page.
pub const PAGE_SIZE: usize = 4096;

/// Number of distinct syscall identifiers tracked per task.
pub const MAX_SYSCALL_NUM: usize = 500;

/// Stride-scheduling constant: a dispatched task's stride grows by
/// `BIG_STRIDE / priority`, so higher priority means slower growth.
pub const BIG_STRIDE: u64 = 65536;

/// Priority given to a task created fresh from a program image.
pub const DEFAULT_PRIORITY: u64 = 16;

/// Number of saved user registers in a trap context.
pub const TRAP_REG_COUNT: usize = 32;

/// Index of the saved register that carries a syscall's return value
/// back to user mode.
pub const RETVAL_REG: usize = 10;

/// Highest virtual address the program break may reach.
pub const BRK_CEILING: usize = 0x3fff_f000;

/// Largest pid the kernel hands out, so every pid fits an `isize`.
pub const PID_CEILING: usize = 0x7fff_ffff;

} // verus!
