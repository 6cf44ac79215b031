//! Core of a small teaching operating system kernel: process control blocks,
//! per-process virtual address spaces backed by a page table, a stride
//! scheduler, and the system-call layer that drives them.
//!
//! The kernel state is threaded explicitly through the system-call functions
//! instead of living in an ambient global, so that every state change is
//! visible in a contract.

pub mod kernel;
pub mod manager;
pub mod mm;
pub mod task;

use vstd::prelude::*;

verus! {

/// Size in bytes of one page of virtual or physical memory.
pub const PAGE_SIZE: usize = 4096;

/// Largest physical page number the frame allocator ever hands out; keeps
/// every physical byte address representable in a `usize`.
pub const MAX_PPN: usize = usize::MAX / PAGE_SIZE - 1;

/// Largest heap break the kernel accepts: the break comes back from `sbrk`
/// in a signed word, so it must not exceed the signed maximum (this equals
/// `isize::MAX`).
pub const MAX_BRK: usize = usize::MAX / 2;

/// Largest process id the kernel ever assigns: a pid comes back from
/// system calls in a signed word, so it must not exceed the signed maximum
/// (this equals `isize::MAX`).
pub const MAX_PID: usize = usize::MAX / 2;

/// Number of distinct system-call numbers counted per task.
pub const MAX_SYSCALL_NUM: usize = 500;

/// Numerator of the stride-scheduling pass computation: a task of priority
/// `p` advances its stride by `BIG_STRIDE / p` each time it is selected.
pub const BIG_STRIDE: usize = 65536;

/// Priority given to every newly created task.
pub const DEFAULT_PRIORITY: usize = 16;

/// Base of the user heap in a freshly loaded address space.
pub const USER_HEAP_BASE: usize = 0x1_0000;

} // verus!
