//! Core of a teaching operating-system kernel: task control blocks,
//! page-granular address spaces, a stride scheduler, the process
//! lifecycle (fork / exec / spawn / exit / wait), and the translation
//! layer that resolves user-space pointers at the syscall boundary.
//!
//! The trap/context-switch primitive, the physical devices behind file
//! handles, and the clock are external collaborators: the kernel state
//! here models what the core owns, and the syscall functions state in
//! their contracts exactly how each call changes that state.

pub mod config;
pub mod frame;
pub mod memory_set;
pub mod kernel;
pub mod sched;
pub mod syscall;
pub mod task;
pub mod uaccess;
