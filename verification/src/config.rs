//! Layout constants of the kernel core.
//!
//! The model uses a compact virtual address space: `MAX_VPN` pages, with
//! the trampoline page at the top and the trap-context page just below
//! it, mirroring the layout a link script would fix.
use vstd::prelude::*;

verus! {

/// Bytes in one page.
pub const PAGE_SIZE: usize = 4096;

/// Number of virtual pages an address space can hold.
pub const MAX_VPN: usize = 256;

/// Virtual page of the fixed trampoline mapping, shared with kernel space.
pub const TRAMPOLINE_VPN: usize = 255;

/// Virtual page holding a task's trap context.
pub const TRAP_CONTEXT_VPN: usize = 254;

/// Physical page holding the trampoline code; reserved at boot, owned by no task.
pub const TRAMPOLINE_PPN: usize = 0;

/// Pages in each user stack.
pub const USER_STACK_PAGES: usize = 2;

/// Distinct syscall numbers counted per task.
pub const MAX_SYSCALL_NUM: usize = 500;

/// Stride-scheduling constant: `pass = BIG_STRIDE / priority`.
pub const BIG_STRIDE: u64 = 16777216;

/// Priority given to every freshly created task.
pub const DEFAULT_PRIORITY: u64 = 16;

/// Upper bound on the length of a null-terminated user string walk.
pub const STR_MAX_LEN: usize = 4096;

/// Page-table entry flag: page is valid.
pub const PTE_V: u8 = 1;
/// Page-table entry flag: readable.
pub const PTE_R: u8 = 2;
/// Page-table entry flag: writable.
pub const PTE_W: u8 = 4;
/// Page-table entry flag: executable.
pub const PTE_X: u8 = 8;
/// Page-table entry flag: accessible from user mode.
pub const PTE_U: u8 = 16;

} // verus!
