//! Task control blocks: one process's address space, file table,
//! parent/child relations and scheduling metadata, with the lifecycle
//! operations that build them (new / fork / exec / spawn) and the heap
//! operations (program break, mmap regions).
use vstd::prelude::*;

use crate::config::{
    BIG_STRIDE, DEFAULT_PRIORITY, MAX_SYSCALL_NUM, MAX_VPN, PAGE_SIZE, TRAP_CONTEXT_VPN,
};
use crate::frame::FrameManager;
use crate::memory_set::{first_start, image_frames, image_loaded, image_ok, MemorySet, ProgramImage};
use crate::sched::Stride;

verus! {

/// A process identifier handle; unique while the task lives, reclaimed
/// on exit.
#[derive(Copy, Clone, Debug, PartialEq, Eq, Structural)]
pub struct PidHandle(pub usize);

/// Handle of the kernel stack slot that belongs to one pid.
#[derive(Copy, Clone, Debug, PartialEq, Eq, Structural)]
pub struct KernelStack(pub usize);

impl KernelStack {
    /// Top address of this kernel stack inside kernel space.
    pub fn get_top(&self) -> (t: usize)
        requires
            self.0 < 0xffff,
        ensures
            t == (self.0 + 1) * 0x4000,
    {
        (self.0 + 1) * 0x4000
    }
}

/// Execution status of a task.
#[derive(Copy, Clone, Debug, PartialEq, Eq, Structural)]
pub enum TaskStatus {
    /// Not yet initialized.
    UnInit,
    /// Ready to run.
    Ready,
    /// Currently running.
    Running,
    /// Exited; exit code not yet collected by the parent.
    Zombie,
}

/// Saved callee context used by the external context-switch primitive.
#[derive(Copy, Clone, Debug, PartialEq, Eq, Structural)]
pub struct TaskContext {
    /// Return address the switch resumes at.
    pub ra: usize,
    /// Kernel stack pointer.
    pub sp: usize,
}

impl TaskContext {
    /// Context that resumes at the trap-return path on `kstack_top`.
    pub fn goto_trap_return(kstack_top: usize) -> (c: TaskContext)
        ensures
            c.sp == kstack_top,
    {
        TaskContext { ra: 0, sp: kstack_top }
    }
}

/// Saved register state at the user/kernel boundary.
#[derive(Copy, Clone, Debug, PartialEq, Eq, Structural)]
pub struct TrapContext {
    /// User program counter to resume at.
    pub entry: usize,
    /// User stack pointer.
    pub user_sp: usize,
    /// Kernel stack top used on trap entry.
    pub kernel_sp: usize,
    /// Return-value register handed back to user mode.
    pub a0: usize,
}

impl TrapContext {
    /// Initial trap context of a fresh application.
    pub fn app_init_context(entry: usize, user_sp: usize, kernel_sp: usize) -> (c: TrapContext)
        ensures
            c == (TrapContext { entry, user_sp, kernel_sp, a0: 0 }),
    {
        TrapContext { entry, user_sp, kernel_sp, a0: 0 }
    }
}

/// A shared handle in the file table: console ends or an entry of the
/// kernel's open-file table (shared across fork, so parent and child see
/// the same stream state).
#[derive(Copy, Clone, Debug, PartialEq, Eq, Structural)]
pub enum FileHandle {
    /// Console input.
    Stdin,
    /// Console output.
    Stdout,
    /// Index into the kernel's open-file table.
    File(usize),
}

/// A byte-address wrapper for region bounds.
#[derive(Copy, Clone, Debug, PartialEq, Eq, Structural)]
pub struct VirtAddr(pub usize);

impl VirtAddr {
    /// Offset inside the page.
    pub fn page_offset(&self) -> (o: usize)
        ensures
            o == self.0 as int % PAGE_SIZE as int,
    {
        self.0 % PAGE_SIZE
    }

    /// Page containing this address.
    pub fn floor(&self) -> (v: usize)
        ensures
            v == self.0 as int / PAGE_SIZE as int,
    {
        self.0 / PAGE_SIZE
    }

    /// First page at or above this address.
    pub fn ceil(&self) -> (v: usize)
        requires
            self.0 + PAGE_SIZE <= usize::MAX,
        ensures
            v == (self.0 + PAGE_SIZE - 1) as int / PAGE_SIZE as int,
    {
        (self.0 + PAGE_SIZE - 1) / PAGE_SIZE
    }
}

/// Region permission mask (`PTE_R | PTE_W | PTE_X | PTE_U` bits).
#[derive(Copy, Clone, Debug, PartialEq, Eq, Structural)]
pub struct MapPermission(pub u8);

/// Scheduling metadata and syscall counters of one task.
#[derive(Clone, Debug)]
pub struct SyscallInfo {
    /// Count per syscall number, incremented on each syscall entry.
    pub syscall_times: Vec<u32>,
    /// Clock reading at the task's first dispatch, microseconds
    /// (0 until it first runs).
    pub time: usize,
    /// Stride accumulated so far.
    pub stride: Stride,
    /// Added to the stride at each dispatch: `BIG_STRIDE / priority`.
    pub pass: u64,
    /// Scheduling priority; at least 2.
    pub priority: u64,
}

impl SyscallInfo {
    /// Counters hold one slot per syscall number.
    pub open spec fn wf(self) -> bool {
        self.syscall_times@.len() == MAX_SYSCALL_NUM
    }

    /// Fresh metadata: zeroed counters, stride 0, default priority.
    pub fn new_default() -> (s: SyscallInfo)
        ensures
            s.wf(),
            forall|i: int| 0 <= i < MAX_SYSCALL_NUM ==> s.syscall_times@[i] == 0,
            s.time == 0,
            s.stride.0 == 0,
            s.pass == BIG_STRIDE / DEFAULT_PRIORITY,
            s.priority == DEFAULT_PRIORITY,
    {
        let mut times: Vec<u32> = Vec::new();
        let mut i: usize = 0;
        while i < MAX_SYSCALL_NUM
            invariant
                i <= MAX_SYSCALL_NUM,
                times@.len() == i,
                forall|k: int| 0 <= k < i ==> times@[k] == 0,
            decreases MAX_SYSCALL_NUM - i,
        {
            times.push(0);
            i += 1;
        }
        SyscallInfo {
            syscall_times: times,
            time: 0,
            stride: Stride(0),
            pass: BIG_STRIDE / DEFAULT_PRIORITY,
            priority: DEFAULT_PRIORITY,
        }
    }

    /// Add one pass to the stride; the accumulator wraps modulo the
    /// integer width.
    pub fn add_stride(&mut self)
        ensures
            final(self).stride.0 == (old(self).stride.0 + old(self).pass) % 0x1_0000_0000_0000_0000,
            final(self).syscall_times == old(self).syscall_times,
            final(self).time == old(self).time,
            final(self).pass == old(self).pass,
            final(self).priority == old(self).priority,
    {
        self.stride = Stride(self.stride.0.wrapping_add(self.pass));
    }
}

/// The mutable inner state of a task, exclusively owned by it.
pub struct TaskControlBlockInner {
    /// Physical page holding the trap context.
    pub trap_cx_ppn: usize,
    /// Application data lies below this address.
    pub base_size: usize,
    /// Saved task context for the context-switch primitive.
    pub task_cx: TaskContext,
    /// Current execution status.
    pub task_status: TaskStatus,
    /// The task's address space.
    pub memory_set: MemorySet,
    /// Trap context saved at the user/kernel boundary.
    pub trap_cx: TrapContext,
    /// Parent pid; a lookup-only back-reference, never ownership.
    pub parent: Option<usize>,
    /// Pids of all the children the task owns.
    pub children: Vec<usize>,
    /// Set on exit.
    pub exit_code: i32,
    /// Open-file table; the index is the file descriptor.
    pub fd_table: Vec<Option<FileHandle>>,
    /// Lowest heap address.
    pub heap_bottom: usize,
    /// Current program break.
    pub program_brk: usize,
    /// Scheduling metadata and syscall counters.
    pub taskinfo: SyscallInfo,
}

/// One task: immutable identity plus exclusively owned inner state.
pub struct TaskControlBlock {
    /// Process identifier.
    pub pid: PidHandle,
    /// Kernel stack belonging to this pid.
    pub kernel_stack: KernelStack,
    /// Mutable state, guarded by exclusive access.
    pub inner: TaskControlBlockInner,
}

impl TaskControlBlockInner {
    /// A copy of the saved trap context.
    pub fn get_trap_cx(&self) -> (c: TrapContext)
        ensures
            c == self.trap_cx,
    {
        self.trap_cx
    }

    /// Token of the owning task's address space.
    pub fn get_user_token(&self) -> (t: usize)
        ensures
            t == self.memory_set.pt.root_ppn,
    {
        self.memory_set.token()
    }

    /// Current status.
    pub fn get_status(&self) -> (s: TaskStatus)
        ensures
            s == self.task_status,
    {
        self.task_status
    }

    /// The task has exited but has not been collected yet.
    pub fn is_zombie(&self) -> (b: bool)
        ensures
            b == (self.task_status == TaskStatus::Zombie),
    {
        self.get_status() == TaskStatus::Zombie
    }

    /// Lowest free slot of the file table, growing it when full.
    pub fn alloc_fd(&mut self) -> (fd: usize)
        requires
            old(self).fd_table@.len() < usize::MAX,
        ensures
            fd < final(self).fd_table@.len(),
            fd <= old(self).fd_table@.len(),
            final(self).fd_table@[fd as int] is None,
            fd == old(self).fd_table@.len() ==> final(self).fd_table@ == old(
                self,
            ).fd_table@.push(None) && (forall|j: int|
                0 <= j < fd ==> old(self).fd_table@[j] is Some),
            fd < old(self).fd_table@.len() ==> final(self).fd_table@ == old(self).fd_table@
                && (forall|j: int| 0 <= j < fd ==> old(self).fd_table@[j] is Some),
            final(self).memory_set == old(self).memory_set,
            final(self).taskinfo == old(self).taskinfo,
            final(self).children == old(self).children,
            final(self).task_status == old(self).task_status,
            final(self).heap_bottom == old(self).heap_bottom,
            final(self).program_brk == old(self).program_brk,
            final(self).base_size == old(self).base_size,
            final(self).parent == old(self).parent,
            final(self).exit_code == old(self).exit_code,
            final(self).trap_cx == old(self).trap_cx,
    {
        let n = self.fd_table.len();
        let mut fd: usize = 0;
        while fd < n
            invariant
                fd <= n,
                n == self.fd_table@.len(),
                *self == *old(self),
                forall|j: int| 0 <= j < fd ==> self.fd_table@[j] is Some,
            decreases n - fd,
        {
            if self.fd_table[fd].is_none() {
                return fd;
            }
            fd += 1;
        }
        self.fd_table.push(None);
        n
    }

    /// A copy of the scheduling metadata and counters.
    pub fn get_taskinfo(&self) -> (t: SyscallInfo)
        requires
            self.taskinfo.wf(),
        ensures
            t.syscall_times@ == self.taskinfo.syscall_times@,
            t.time == self.taskinfo.time,
            t.stride == self.taskinfo.stride,
            t.pass == self.taskinfo.pass,
            t.priority == self.taskinfo.priority,
    {
        let n = self.taskinfo.syscall_times.len();
        let mut times: Vec<u32> = Vec::new();
        let mut i: usize = 0;
        while i < n
            invariant
                i <= n,
                n == self.taskinfo.syscall_times@.len(),
                times@.len() == i,
                forall|k: int| 0 <= k < i ==> times@[k] == self.taskinfo.syscall_times@[k],
            decreases n - i,
        {
            times.push(self.taskinfo.syscall_times[i]);
            i += 1;
        }
        proof {
            assert(times@ =~= self.taskinfo.syscall_times@);
        }
        SyscallInfo {
            syscall_times: times,
            time: self.taskinfo.time,
            stride: self.taskinfo.stride,
            pass: self.taskinfo.pass,
            priority: self.taskinfo.priority,
        }
    }

    /// Record one call of syscall number `sys_num`, saturating.
    pub fn add_one_syscall(&mut self, sys_num: usize)
        requires
            old(self).taskinfo.wf(),
            sys_num < MAX_SYSCALL_NUM,
        ensures
            final(self).taskinfo.wf(),
            final(self).taskinfo.syscall_times@ == old(self).taskinfo.syscall_times@.update(
                sys_num as int,
                if old(self).taskinfo.syscall_times@[sys_num as int] == u32::MAX {
                    u32::MAX
                } else {
                    (old(self).taskinfo.syscall_times@[sys_num as int] + 1) as u32
                },
            ),
            final(self).taskinfo.time == old(self).taskinfo.time,
            final(self).taskinfo.stride == old(self).taskinfo.stride,
            final(self).taskinfo.pass == old(self).taskinfo.pass,
            final(self).taskinfo.priority == old(self).taskinfo.priority,
            final(self).memory_set == old(self).memory_set,
            final(self).fd_table == old(self).fd_table,
            final(self).children == old(self).children,
            final(self).task_status == old(self).task_status,
            final(self).parent == old(self).parent,
            final(self).exit_code == old(self).exit_code,
            final(self).heap_bottom == old(self).heap_bottom,
            final(self).program_brk == old(self).program_brk,
            final(self).base_size == old(self).base_size,
            final(self).trap_cx == old(self).trap_cx,
            final(self).trap_cx_ppn == old(self).trap_cx_ppn,
            final(self).task_cx == old(self).task_cx,
    {
        let cur = self.taskinfo.syscall_times[sys_num];
        let next = if cur == u32::MAX {
            u32::MAX
        } else {
            cur + 1
        };
        self.taskinfo.syscall_times.set(sys_num, next);
    }
}

impl TaskControlBlock {
    /// Exclusive access to the mutable inner state.  On this cooperative
    /// uniprocessor core, exclusivity is the `&mut` borrow itself: a
    /// second simultaneous access is a compile-time error rather than a
    /// run-time invariant violation.
    pub fn inner_exclusive_access(&mut self) -> (r: &mut TaskControlBlockInner)
        ensures
            *r == old(self).inner,
            final(self).pid == old(self).pid,
            final(self).kernel_stack == old(self).kernel_stack,
            final(self).inner == *final(r),
    {
        &mut self.inner
    }

    /// Token of the owning task's address space root page table.
    pub fn get_user_token(&self) -> (t: usize)
        ensures
            t == self.inner.memory_set.pt.root_ppn,
    {
        self.inner.memory_set.token()
    }

    /// Process id.
    pub fn getpid(&self) -> (p: usize)
        ensures
            p == self.pid.0,
    {
        self.pid.0
    }

    /// Current stride of the task.
    pub fn get_stride(&self) -> (s: Stride)
        ensures
            s == self.inner.taskinfo.stride,
    {
        self.inner.taskinfo.stride
    }

    /// The task is well formed and owns its frames inside pool `fm`.
    pub open spec fn wf_in(self, fm: FrameManager) -> bool {
        &&& self.inner.memory_set.wf_in(fm)
        &&& self.inner.taskinfo.wf()
        &&& self.inner.heap_bottom as int % PAGE_SIZE as int == 0
        &&& self.inner.heap_bottom <= self.inner.program_brk
        &&& self.inner.program_brk <= MAX_VPN * PAGE_SIZE
    }

    /// Create the initial process from a program image, with the given
    /// pid and kernel stack.  Fails, leaving the frame pool as it was,
    /// on a malformed image or an exhausted machine.
    pub fn new(fm: &mut FrameManager, img: &ProgramImage, pid: usize, kstack: usize) -> (r: Option<
        TaskControlBlock,
    >)
        requires
            old(fm).wf(),
            kstack < 0xffff,
        ensures
            final(fm).wf(),
            final(fm).cap == old(fm).cap,
            final(fm).mem@.len() >= old(fm).mem@.len(),
            forall|q: int|
                old(fm).allocated().contains(q) ==> final(fm).frame(q) == old(fm).frame(q),
            r is None ==> forall|p: int|
                #[trigger] final(fm).allocated().contains(p) <==> old(fm).allocated().contains(
                    p,
                ),
            image_ok(*img) && old(fm).avail() >= image_frames(*img) ==> r is Some,
            r is Some ==> {
                let t = r.unwrap();
                &&& t.wf_in(*final(fm))
                &&& image_loaded(t.inner.memory_set, *final(fm), *img)
                &&& t.pid.0 == pid
                &&& t.kernel_stack.0 == kstack
                &&& t.inner.task_status == TaskStatus::Ready
                &&& t.inner.parent is None
                &&& t.inner.children@.len() == 0
                &&& t.inner.exit_code == 0
                &&& t.inner.fd_table@ == seq![
                    Some(FileHandle::Stdin),
                    Some(FileHandle::Stdout),
                    Some(FileHandle::Stdout),
                ]
                &&& t.inner.heap_bottom == t.inner.program_brk
                &&& t.inner.base_size == t.inner.heap_bottom
                &&& t.inner.taskinfo.priority == DEFAULT_PRIORITY
                &&& t.inner.taskinfo.pass == BIG_STRIDE / DEFAULT_PRIORITY
                &&& t.inner.taskinfo.stride.0 == 0
                &&& t.inner.taskinfo.time == 0
                &&& forall|i: int|
                    0 <= i < MAX_SYSCALL_NUM ==> t.inner.taskinfo.syscall_times@[i] == 0
                &&& t.inner.trap_cx == (TrapContext {
                    entry: img.entry,
                    user_sp: t.inner.base_size,
                    kernel_sp: ((kstack + 1) * 0x4000) as usize,
                    a0: 0,
                })
                &&& forall|p: int|
                    old(fm).allocated().contains(p) ==> final(fm).allocated().contains(p)
                &&& forall|p: int|
                    #[trigger] t.inner.memory_set.owned().contains(p) ==> !old(
                        fm,
                    ).allocated().contains(p)
                &&& forall|p: int|
                    #[trigger] final(fm).allocated().contains(p) ==> old(
                        fm,
                    ).allocated().contains(p) || t.inner.memory_set.owned().contains(p)
            },
    {
        let (memory_set, user_sp, entry) = match MemorySet::from_image(fm, img) {
            Some(t) => t,
            None => {
                return None;
            },
        };
        let trap_cx_ppn = memory_set.translate(TRAP_CONTEXT_VPN).unwrap().ppn;
        let kernel_stack = KernelStack(kstack);
        let kernel_stack_top = kernel_stack.get_top();
        let mut fd_table: Vec<Option<FileHandle>> = Vec::new();
        fd_table.push(Some(FileHandle::Stdin));
        fd_table.push(Some(FileHandle::Stdout));
        fd_table.push(Some(FileHandle::Stdout));
        proof {
            assert(fd_table@ =~= seq![
                Some(FileHandle::Stdin),
                Some(FileHandle::Stdout),
                Some(FileHandle::Stdout),
            ]);
            let hv = user_sp as int / PAGE_SIZE as int;
            assert(user_sp as int == hv * PAGE_SIZE) by (nonlinear_arith)
                requires
                    user_sp as int % PAGE_SIZE as int == 0,
                    hv == user_sp as int / PAGE_SIZE as int,
                    PAGE_SIZE > 0,
            ;
            assert(user_sp <= MAX_VPN * PAGE_SIZE) by (nonlinear_arith)
                requires
                    user_sp as int == hv * PAGE_SIZE,
                    hv <= TRAP_CONTEXT_VPN,
                    TRAP_CONTEXT_VPN < MAX_VPN,
                    PAGE_SIZE > 0,
            ;
        }
        Some(
            TaskControlBlock {
                pid: PidHandle(pid),
                kernel_stack,
                inner: TaskControlBlockInner {
                    trap_cx_ppn,
                    base_size: user_sp,
                    task_cx: TaskContext::goto_trap_return(kernel_stack_top),
                    task_status: TaskStatus::Ready,
                    memory_set,
                    trap_cx: TrapContext::app_init_context(entry, user_sp, kernel_stack_top),
                    parent: None,
                    children: Vec::new(),
                    exit_code: 0,
                    fd_table,
                    heap_bottom: user_sp,
                    program_brk: user_sp,
                    taskinfo: SyscallInfo::new_default(),
                },
            },
        )
    }

    /// Replace the task's own address space and trap frame with ones built
    /// from a new program image; pid, kernel stack, children, file table
    /// and counters are preserved.  Fails, changing nothing, on a
    /// malformed image or an exhausted machine.
    pub fn exec(&mut self, fm: &mut FrameManager, img: &ProgramImage) -> (r: bool)
        requires
            old(self).wf_in(*old(fm)),
            old(fm).wf(),
            old(self).kernel_stack.0 < 0xffff,
        ensures
            final(fm).wf(),
            final(fm).cap == old(fm).cap,
            forall|q: int|
                old(fm).allocated().contains(q) && !old(self).inner.memory_set.owned().contains(
                    q,
                ) ==> final(fm).frame(q) == old(fm).frame(q),
            image_ok(*img) && old(fm).avail() >= image_frames(*img) ==> r,
            !r ==> {
                &&& *final(self) == *old(self)
                &&& forall|p: int|
                    #[trigger] final(fm).allocated().contains(p) <==> old(
                        fm,
                    ).allocated().contains(p)
            },
            r ==> {
                let t = *final(self);
                &&& t.wf_in(*final(fm))
                &&& image_loaded(t.inner.memory_set, *final(fm), *img)
                &&& t.pid == old(self).pid
                &&& t.kernel_stack == old(self).kernel_stack
                &&& t.inner.parent == old(self).inner.parent
                &&& t.inner.children == old(self).inner.children
                &&& t.inner.exit_code == old(self).inner.exit_code
                &&& t.inner.fd_table == old(self).inner.fd_table
                &&& t.inner.taskinfo == old(self).inner.taskinfo
                &&& t.inner.task_status == old(self).inner.task_status
                &&& t.inner.heap_bottom == t.inner.program_brk
                &&& t.inner.base_size == t.inner.heap_bottom
                &&& t.inner.trap_cx == (TrapContext {
                    entry: img.entry,
                    user_sp: t.inner.base_size,
                    kernel_sp: ((old(self).kernel_stack.0 + 1) * 0x4000) as usize,
                    a0: 0,
                })
                &&& forall|p: int|
                    #[trigger] t.inner.memory_set.owned().contains(p) ==> !old(
                        fm,
                    ).allocated().contains(p)
                &&& forall|p: int|
                    #[trigger] final(fm).allocated().contains(p) <==> (old(
                        fm,
                    ).allocated().contains(p) && !old(self).inner.memory_set.owned().contains(
                        p,
                    )) || t.inner.memory_set.owned().contains(p)
            },
    {
        let ghost pre_fm = *fm;
        let ghost pre_self = *self;
        let (memory_set, user_sp, entry) = match MemorySet::from_image(fm, img) {
            Some(t) => t,
            None => {
                return false;
            },
        };
        let ghost mid_fm = *fm;
        let ghost new_ms = memory_set;
        let trap_cx_ppn = memory_set.translate(TRAP_CONTEXT_VPN).unwrap().ppn;
        let kernel_stack_top = self.kernel_stack.get_top();
        let mut dead = memory_set;
        core::mem::swap(&mut self.inner.memory_set, &mut dead);
        proof {
            crate::memory_set::lemma_owned_allocated(pre_self.inner.memory_set, pre_fm);
            assert(dead.wf_in(*fm)) by {
                assert forall|i: int, k: int|
                    0 <= i < dead.areas@.len() && 0 <= k
                        < dead.areas@[i].frames@.len() implies fm.allocated().contains(
                    #[trigger] dead.areas@[i].frames@[k] as int,
                ) by {
                    assert(pre_fm.allocated().contains(dead.areas@[i].frames@[k] as int));
                }
                assert(pre_fm.allocated().contains(dead.pt.root_ppn as int));
            }
        }
        dead.release(fm);
        proof {
            crate::memory_set::lemma_owned_allocated(new_ms, mid_fm);
            assert(image_loaded(new_ms, *fm, *img)) by {
                assert forall|a2: int, adr: int|
                    #![trigger img.segments@[a2], new_ms.byte_at(*fm, adr)]
                    0 <= a2 < img.segments@.len() && img.segments@[a2].start_vpn * PAGE_SIZE
                        <= adr < img.segments@[a2].start_vpn * PAGE_SIZE
                        + img.segments@[a2].pages * PAGE_SIZE implies new_ms.byte_at(*fm, adr)
                    == (if adr - img.segments@[a2].start_vpn * PAGE_SIZE
                    < img.segments@[a2].data@.len() {
                    img.segments@[a2].data@[adr - img.segments@[a2].start_vpn * PAGE_SIZE]
                } else {
                    0u8
                }) by {
                    assert(new_ms.byte_at(mid_fm, adr) == (if adr - img.segments@[a2].start_vpn
                        * PAGE_SIZE < img.segments@[a2].data@.len() {
                        img.segments@[a2].data@[adr - img.segments@[a2].start_vpn
                            * PAGE_SIZE]
                    } else {
                        0u8
                    }));
                    assert(fm.mem@ == mid_fm.mem@);
                }
            }
            assert forall|p: int| #[trigger] fm.allocated().contains(p) <==> (
            pre_fm.allocated().contains(p) && !pre_self.inner.memory_set.owned().contains(p))
                || new_ms.owned().contains(p) by {
                if fm.allocated().contains(p) {
                    assert(mid_fm.allocated().contains(p));
                    assert(!pre_self.inner.memory_set.owned().contains(p));
                } else {
                    if new_ms.owned().contains(p) {
                        assert(mid_fm.allocated().contains(p));
                        assert(!pre_fm.allocated().contains(p));
                        assert(!pre_self.inner.memory_set.owned().contains(p));
                        assert(false);
                    }
                }
            }
        }
        self.inner.trap_cx_ppn = trap_cx_ppn;
        self.inner.base_size = user_sp;
        self.inner.heap_bottom = user_sp;
        self.inner.program_brk = user_sp;
        self.inner.trap_cx = TrapContext::app_init_context(entry, user_sp, kernel_stack_top);
        proof {
            let hv = user_sp as int / PAGE_SIZE as int;
            assert(user_sp as int == hv * PAGE_SIZE) by (nonlinear_arith)
                requires
                    user_sp as int % PAGE_SIZE as int == 0,
                    hv == user_sp as int / PAGE_SIZE as int,
                    PAGE_SIZE > 0,
            ;
            assert(user_sp <= MAX_VPN * PAGE_SIZE) by (nonlinear_arith)
                requires
                    user_sp as int == hv * PAGE_SIZE,
                    hv <= TRAP_CONTEXT_VPN,
                    TRAP_CONTEXT_VPN < MAX_VPN,
                    PAGE_SIZE > 0,
            ;
            assert(new_ms.wf_in(*fm)) by {
                assert forall|i: int, k: int|
                    0 <= i < new_ms.areas@.len() && 0 <= k
                        < new_ms.areas@[i].frames@.len() implies fm.allocated().contains(
                    #[trigger] new_ms.areas@[i].frames@[k] as int,
                ) by {
                    assert(new_ms.owned().contains(new_ms.areas@[i].frames@[k] as int));
                    assert(mid_fm.allocated().contains(new_ms.areas@[i].frames@[k] as int));
                    assert(!pre_self.inner.memory_set.owned().contains(
                        new_ms.areas@[i].frames@[k] as int,
                    ));
                }
                assert(fm.allocated().contains(new_ms.pt.root_ppn as int)) by {
                    assert(new_ms.owned().contains(new_ms.pt.root_ppn as int));
                }
            }
        }
        true
    }

    /// Fork: clone the parent's address space with byte-identical
    /// contents, duplicate the file table (shared handles), link the
    /// child to this parent and append it to the children list.  The
    /// parent changes only in its children list.  Fails, changing
    /// nothing, when the machine runs out of frames.
    pub fn fork(&mut self, fm: &mut FrameManager, child_pid: usize, child_kstack: usize) -> (r:
        Option<TaskControlBlock>)
        requires
            old(self).wf_in(*old(fm)),
            old(fm).wf(),
            child_kstack < 0xffff,
            old(self).inner.children@.len() < usize::MAX,
        ensures
            final(fm).wf(),
            final(fm).cap == old(fm).cap,
            forall|q: int|
                old(fm).allocated().contains(q) ==> final(fm).frame(q) == old(fm).frame(q),
            old(fm).avail() >= 1 + old(self).inner.memory_set.pages() ==> r is Some,
            r is None ==> {
                &&& *final(self) == *old(self)
                &&& forall|p: int|
                    #[trigger] final(fm).allocated().contains(p) <==> old(
                        fm,
                    ).allocated().contains(p)
            },
            r is Some ==> {
                let c = r.unwrap();
                &&& final(self).pid == old(self).pid
                &&& final(self).kernel_stack == old(self).kernel_stack
                &&& final(self).inner.children@ == old(self).inner.children@.push(child_pid)
                &&& final(self).inner.memory_set == old(self).inner.memory_set
                &&& final(self).inner.fd_table == old(self).inner.fd_table
                &&& final(self).inner.taskinfo == old(self).inner.taskinfo
                &&& final(self).inner.task_status == old(self).inner.task_status
                &&& final(self).inner.parent == old(self).inner.parent
                &&& final(self).inner.exit_code == old(self).inner.exit_code
                &&& final(self).inner.heap_bottom == old(self).inner.heap_bottom
                &&& final(self).inner.program_brk == old(self).inner.program_brk
                &&& final(self).inner.base_size == old(self).inner.base_size
                &&& final(self).inner.trap_cx == old(self).inner.trap_cx
                &&& final(self).inner.task_cx == old(self).inner.task_cx
                &&& final(self).inner.trap_cx_ppn == old(self).inner.trap_cx_ppn
                &&& c.wf_in(*final(fm))
                &&& c.pid.0 == child_pid
                &&& c.kernel_stack.0 == child_kstack
                &&& c.inner.parent == Some(old(self).pid.0)
                &&& c.inner.children@.len() == 0
                &&& c.inner.task_status == TaskStatus::Ready
                &&& c.inner.exit_code == 0
                &&& c.inner.fd_table@ == old(self).inner.fd_table@
                &&& c.inner.memory_set.regions() == old(self).inner.memory_set.regions()
                &&& c.inner.heap_bottom == old(self).inner.heap_bottom
                &&& c.inner.program_brk == old(self).inner.program_brk
                &&& c.inner.base_size == old(self).inner.base_size
                &&& c.inner.taskinfo.stride.0 == 0
                &&& c.inner.taskinfo.pass == BIG_STRIDE / DEFAULT_PRIORITY
                &&& c.inner.taskinfo.priority == DEFAULT_PRIORITY
                &&& c.inner.trap_cx == (TrapContext {
                    kernel_sp: ((child_kstack + 1) * 0x4000) as usize,
                    ..old(self).inner.trap_cx
                })
                &&& forall|v: int|
                    0 <= v < MAX_VPN && v != crate::config::TRAMPOLINE_VPN && (
                    #[trigger] old(self).inner.memory_set.translated(v)) is Some
                        ==> final(fm).frame(c.inner.memory_set.ppn_of(v)) == old(fm).frame(
                        old(self).inner.memory_set.ppn_of(v),
                    )
                &&& forall|p: int|
                    old(fm).allocated().contains(p) ==> final(fm).allocated().contains(p)
                &&& forall|p: int|
                    #[trigger] c.inner.memory_set.owned().contains(p) ==> !old(
                        fm,
                    ).allocated().contains(p)
                &&& forall|p: int|
                    #[trigger] final(fm).allocated().contains(p) ==> old(
                        fm,
                    ).allocated().contains(p) || c.inner.memory_set.owned().contains(p)
            },
    {
        let memory_set = match MemorySet::clone_from(fm, &self.inner.memory_set) {
            Some(m) => m,
            None => {
                return None;
            },
        };
        let trap_cx_ppn = match memory_set.translate(TRAP_CONTEXT_VPN) {
            Some(e) => e.ppn,
            None => 0,
        };
        let kernel_stack = KernelStack(child_kstack);
        let kernel_stack_top = kernel_stack.get_top();
        let n = self.inner.fd_table.len();
        let mut new_fd_table: Vec<Option<FileHandle>> = Vec::new();
        let mut i: usize = 0;
        while i < n
            invariant
                i <= n,
                n == self.inner.fd_table@.len(),
                new_fd_table@.len() == i,
                forall|k: int| 0 <= k < i ==> new_fd_table@[k] == self.inner.fd_table@[k],
            decreases n - i,
        {
            new_fd_table.push(self.inner.fd_table[i]);
            i += 1;
        }
        proof {
            assert(new_fd_table@ =~= self.inner.fd_table@);
        }
        let child = TaskControlBlock {
            pid: PidHandle(child_pid),
            kernel_stack,
            inner: TaskControlBlockInner {
                trap_cx_ppn,
                base_size: self.inner.base_size,
                task_cx: TaskContext::goto_trap_return(kernel_stack_top),
                task_status: TaskStatus::Ready,
                memory_set,
                trap_cx: TrapContext { kernel_sp: kernel_stack_top, ..self.inner.trap_cx },
                parent: Some(self.pid.0),
                children: Vec::new(),
                exit_code: 0,
                fd_table: new_fd_table,
                heap_bottom: self.inner.heap_bottom,
                program_brk: self.inner.program_brk,
                taskinfo: SyscallInfo::new_default(),
            },
        };
        self.inner.children.push(child_pid);
        Some(child)
    }

    /// Spawn: build a child directly from a new program image (the
    /// effect of fork + exec without the intermediate copy), duplicate
    /// the file table, and register the child.  The parent changes only
    /// in its children list.  Fails, changing nothing, on a malformed
    /// image or an exhausted machine.
    pub fn spawn(&mut self, fm: &mut FrameManager, img: &ProgramImage, child_pid: usize, child_kstack: usize) -> (r: Option<TaskControlBlock>)
        requires
            old(self).wf_in(*old(fm)),
            old(fm).wf(),
            child_kstack < 0xffff,
            old(self).inner.children@.len() < usize::MAX,
        ensures
            final(fm).wf(),
            final(fm).cap == old(fm).cap,
            forall|q: int|
                old(fm).allocated().contains(q) ==> final(fm).frame(q) == old(fm).frame(q),
            image_ok(*img) && old(fm).avail() >= image_frames(*img) ==> r is Some,
            r is None ==> {
                &&& *final(self) == *old(self)
                &&& forall|p: int|
                    #[trigger] final(fm).allocated().contains(p) <==> old(
                        fm,
                    ).allocated().contains(p)
            },
            r is Some ==> {
                let c = r.unwrap();
                &&& final(self).pid == old(self).pid
                &&& final(self).kernel_stack == old(self).kernel_stack
                &&& final(self).inner.children@ == old(self).inner.children@.push(child_pid)
                &&& final(self).inner.memory_set == old(self).inner.memory_set
                &&& final(self).inner.fd_table == old(self).inner.fd_table
                &&& final(self).inner.taskinfo == old(self).inner.taskinfo
                &&& final(self).inner.task_status == old(self).inner.task_status
                &&& final(self).inner.heap_bottom == old(self).inner.heap_bottom
                &&& final(self).inner.program_brk == old(self).inner.program_brk
                &&& final(self).inner.base_size == old(self).inner.base_size
                &&& final(self).inner.parent == old(self).inner.parent
                &&& final(self).inner.exit_code == old(self).inner.exit_code
                &&& final(self).inner.trap_cx == old(self).inner.trap_cx
                &&& c.wf_in(*final(fm))
                &&& image_loaded(c.inner.memory_set, *final(fm), *img)
                &&& c.pid.0 == child_pid
                &&& c.kernel_stack.0 == child_kstack
                &&& c.inner.parent == Some(old(self).pid.0)
                &&& c.inner.children@.len() == 0
                &&& c.inner.task_status == TaskStatus::Ready
                &&& c.inner.exit_code == 0
                &&& c.inner.fd_table@ == old(self).inner.fd_table@
                &&& c.inner.heap_bottom == c.inner.program_brk
                &&& c.inner.base_size == c.inner.heap_bottom
                &&& c.inner.taskinfo.stride.0 == 0
                &&& c.inner.taskinfo.pass == BIG_STRIDE / DEFAULT_PRIORITY
                &&& c.inner.taskinfo.priority == DEFAULT_PRIORITY
                &&& c.inner.trap_cx == (TrapContext {
                    entry: img.entry,
                    user_sp: c.inner.base_size,
                    kernel_sp: ((child_kstack + 1) * 0x4000) as usize,
                    a0: 0,
                })
                &&& forall|p: int|
                    old(fm).allocated().contains(p) ==> final(fm).allocated().contains(p)
                &&& forall|p: int|
                    #[trigger] c.inner.memory_set.owned().contains(p) ==> !old(
                        fm,
                    ).allocated().contains(p)
                &&& forall|p: int|
                    #[trigger] final(fm).allocated().contains(p) ==> old(
                        fm,
                    ).allocated().contains(p) || c.inner.memory_set.owned().contains(p)
            },
    {
        let (memory_set, user_sp, entry) = match MemorySet::from_image(fm, img) {
            Some(t) => t,
            None => {
                return None;
            },
        };
        let trap_cx_ppn = memory_set.translate(TRAP_CONTEXT_VPN).unwrap().ppn;
        let kernel_stack = KernelStack(child_kstack);
        let kernel_stack_top = kernel_stack.get_top();
        let n = self.inner.fd_table.len();
        let mut new_fd_table: Vec<Option<FileHandle>> = Vec::new();
        let mut i: usize = 0;
        while i < n
            invariant
                i <= n,
                n == self.inner.fd_table@.len(),
                new_fd_table@.len() == i,
                forall|k: int| 0 <= k < i ==> new_fd_table@[k] == self.inner.fd_table@[k],
            decreases n - i,
        {
            new_fd_table.push(self.inner.fd_table[i]);
            i += 1;
        }
        proof {
            assert(new_fd_table@ =~= self.inner.fd_table@);
            let hv = user_sp as int / PAGE_SIZE as int;
            assert(user_sp as int == hv * PAGE_SIZE) by (nonlinear_arith)
                requires
                    user_sp as int % PAGE_SIZE as int == 0,
                    hv == user_sp as int / PAGE_SIZE as int,
                    PAGE_SIZE > 0,
            ;
            assert(user_sp <= MAX_VPN * PAGE_SIZE) by (nonlinear_arith)
                requires
                    user_sp as int == hv * PAGE_SIZE,
                    hv <= TRAP_CONTEXT_VPN,
                    TRAP_CONTEXT_VPN < MAX_VPN,
                    PAGE_SIZE > 0,
            ;
        }
        let child = TaskControlBlock {
            pid: PidHandle(child_pid),
            kernel_stack,
            inner: TaskControlBlockInner {
                trap_cx_ppn,
                base_size: user_sp,
                task_cx: TaskContext::goto_trap_return(kernel_stack_top),
                task_status: TaskStatus::Ready,
                memory_set,
                trap_cx: TrapContext::app_init_context(entry, user_sp, kernel_stack_top),
                parent: Some(self.pid.0),
                children: Vec::new(),
                exit_code: 0,
                fd_table: new_fd_table,
                heap_bottom: user_sp,
                program_brk: user_sp,
                taskinfo: SyscallInfo::new_default(),
            },
        };
        self.inner.children.push(child_pid);
        Some(child)
    }

    /// Move the program break by `size` bytes and grow or shrink the
    /// heap region accordingly.  Returns the old break on success;
    /// fails, changing nothing, when the new break would fall below the
    /// heap bottom or the region cannot change.
    pub fn change_program_brk(&mut self, fm: &mut FrameManager, size: i32) -> (r: Option<usize>)
        requires
            old(self).wf_in(*old(fm)),
            old(fm).wf(),
        ensures
            final(fm).wf(),
            final(fm).cap == old(fm).cap,
            final(self).wf_in(*final(fm)),
            forall|q: int|
                old(fm).allocated().contains(q) && !old(self).inner.memory_set.owned().contains(
                    q,
                ) ==> final(fm).frame(q) == old(fm).frame(q),
            forall|p: int|
                old(fm).allocated().contains(p) && !old(self).inner.memory_set.owned().contains(
                    p,
                ) ==> final(fm).allocated().contains(p),
            forall|p: int|
                #[trigger] final(fm).allocated().contains(p) ==> old(fm).allocated().contains(
                    p,
                ) || final(self).inner.memory_set.owned().contains(p),
            forall|p: int|
                #[trigger] final(self).inner.memory_set.owned().contains(p) ==> old(
                    self,
                ).inner.memory_set.owned().contains(p) || !old(fm).allocated().contains(p),
            ({
                let nb = old(self).inner.program_brk + size;
                let hv = old(self).inner.heap_bottom as int / PAGE_SIZE as int;
                let ce = (nb + PAGE_SIZE - 1) / PAGE_SIZE as int;
                (r is Some) == {
                    &&& nb >= old(self).inner.heap_bottom
                    &&& nb <= usize::MAX
                    &&& if size < 0 {
                        old(self).inner.memory_set.can_shrink(hv, ce)
                    } else {
                        old(self).inner.memory_set.can_append(*old(fm), hv, ce)
                    }
                }
            }),
            r is None ==> {
                &&& *final(self) == *old(self)
                &&& *final(fm) == *old(fm)
            },
            r is Some ==> {
                let hv = old(self).inner.heap_bottom as int / PAGE_SIZE as int;
                let nb = old(self).inner.program_brk + size;
                let ce = (nb + PAGE_SIZE - 1) / PAGE_SIZE as int;
                let i = first_start(old(self).inner.memory_set.areas@, hv);
                &&& r.unwrap() == old(self).inner.program_brk
                &&& nb >= old(self).inner.heap_bottom
                &&& final(self).inner.program_brk == nb
                &&& final(self).inner.heap_bottom == old(self).inner.heap_bottom
                &&& final(self).inner.base_size == old(self).inner.base_size
                &&& final(self).inner.fd_table == old(self).inner.fd_table
                &&& final(self).inner.children == old(self).inner.children
                &&& final(self).inner.taskinfo == old(self).inner.taskinfo
                &&& final(self).inner.task_status == old(self).inner.task_status
                &&& final(self).inner.trap_cx == old(self).inner.trap_cx
                &&& final(self).pid == old(self).pid
                &&& final(self).kernel_stack == old(self).kernel_stack
                &&& final(self).inner.parent == old(self).inner.parent
                &&& final(self).inner.exit_code == old(self).inner.exit_code
                &&& final(self).inner.memory_set.regions() == old(
                    self,
                ).inner.memory_set.regions().update(
                    i,
                    (hv, ce, old(self).inner.memory_set.areas@[i].perm),
                )
            },
    {
        let ghost pre_self = *self;
        let ghost pre_fm = *fm;
        let heap_bottom = self.inner.heap_bottom;
        let old_break = self.inner.program_brk;
        if size >= 0 {
            if self.inner.program_brk > usize::MAX - (size as usize) {
                return None;
            }
        }
        let new_brk: usize = if size >= 0 {
            self.inner.program_brk + (size as usize)
        } else {
            let down = (-(size as i64)) as usize;
            if down > self.inner.program_brk {
                return None;
            }
            self.inner.program_brk - down
        };
        if new_brk < heap_bottom {
            return None;
        }
        let hv = heap_bottom / PAGE_SIZE;
        let ce = (new_brk + PAGE_SIZE - 1) / PAGE_SIZE;
        let result = if size < 0 {
            self.inner.memory_set.shrink_to(fm, hv, ce)
        } else {
            self.inner.memory_set.append_to(fm, hv, ce)
        };
        if result {
            self.inner.program_brk = new_brk;
            proof {
                assert forall|p: int|
                    #[trigger] self.inner.memory_set.owned().contains(p) implies
                    pre_self.inner.memory_set.owned().contains(p) || !pre_fm.allocated().contains(
                    p,
                ) by {
                    if !pre_self.inner.memory_set.owned().contains(p) {
                        if size < 0 {
                            assert(false);
                        } else {
                            let ms0 = pre_self.inner.memory_set;
                            let i = first_start(ms0.areas@, hv as int);
                            let e0 = ms0.areas@[i].end_vpn as int;
                            let v = choose|v: int|
                                e0 <= v < ce && self.inner.memory_set.ppn_of(v) == p;
                            assert(!pre_fm.allocated().contains(
                                self.inner.memory_set.ppn_of(v),
                            ));
                        }
                    }
                }
                assert(new_brk as int <= ce * PAGE_SIZE) by (nonlinear_arith)
                    requires
                        ce == (new_brk + PAGE_SIZE - 1) as int / PAGE_SIZE as int,
                        PAGE_SIZE > 0,
                ;
                assert(ce <= crate::config::TRAMPOLINE_VPN) by {
                    if size < 0 {
                        let ms = pre_self.inner.memory_set;
                        assert(ms.can_shrink(hv as int, ce as int));
                        crate::memory_set::lemma_first_start(ms.areas@, hv as int);
                        let i = first_start(ms.areas@, hv as int);
                        assert(0 <= i < ms.areas@.len());
                        assert((#[trigger] ms.areas@[i]).end_vpn
                            <= crate::config::TRAMPOLINE_VPN);
                    } else {
                        assert(pre_self.inner.memory_set.can_append(
                            pre_fm,
                            hv as int,
                            ce as int,
                        ));
                    }
                }
                assert(new_brk <= MAX_VPN * PAGE_SIZE) by (nonlinear_arith)
                    requires
                        new_brk as int <= ce * PAGE_SIZE,
                        ce <= crate::config::TRAMPOLINE_VPN,
                        crate::config::TRAMPOLINE_VPN < MAX_VPN,
                        PAGE_SIZE > 0,
                ;
            }
            Some(old_break)
        } else {
            None
        }
    }

    /// Register a framed region covering `[start_va, end_va)` in the
    /// task's address space (the mmap path).  Returns 0 on success and
    /// -1 when the range is empty, out of bounds, intersects an existing
    /// region, or the machine is out of frames; on failure the address
    /// space is unchanged.  A region here means a registered region, not
    /// a mapped page: a range covering the empty heap marker is refused
    /// (`can_insert` states this) so the heap keeps room to grow.
    pub fn push_current_area(
        &mut self,
        fm: &mut FrameManager,
        start_va: VirtAddr,
        end_va: VirtAddr,
        permission: MapPermission,
    ) -> (r: isize)
        requires
            old(self).wf_in(*old(fm)),
            old(fm).wf(),
        ensures
            final(fm).wf(),
            final(fm).cap == old(fm).cap,
            final(self).wf_in(*final(fm)),
            ({
                let s = start_va.0 as int / PAGE_SIZE as int;
                let e = (end_va.0 + PAGE_SIZE - 1) as int / PAGE_SIZE as int;
                &&& (r == 0 || r == -1)
                &&& (r == 0) == old(self).inner.memory_set.can_insert(*old(fm), s, e)
                &&& r == -1 ==> *final(self) == *old(self) && *final(fm) == *old(fm)
                &&& r == 0 ==> {
                    &&& final(self).pid == old(self).pid
                    &&& final(self).kernel_stack == old(self).kernel_stack
                    &&& final(self).inner.parent == old(self).inner.parent
                    &&& final(self).inner.exit_code == old(self).inner.exit_code
                    &&& final(self).inner.trap_cx == old(self).inner.trap_cx
                    &&& final(self).inner.trap_cx_ppn == old(self).inner.trap_cx_ppn
                    &&& final(self).inner.base_size == old(self).inner.base_size
                    &&& final(self).inner.task_cx == old(self).inner.task_cx
                    &&& final(self).inner.memory_set.regions() == old(
                        self,
                    ).inner.memory_set.regions().push((s, e, permission.0))
                    &&& forall|v: int|
                        0 <= v < MAX_VPN && !(s <= v < e)
                            ==> final(self).inner.memory_set.pt.slots@[v] == old(
                            self,
                        ).inner.memory_set.pt.slots@[v]
                    &&& forall|v: int|
                        s <= v < e ==> {
                            &&& old(self).inner.memory_set.translated(v) is None
                            &&& final(self).inner.memory_set.translated(v) is Some
                        }
                    &&& final(self).inner.fd_table == old(self).inner.fd_table
                    &&& final(self).inner.children == old(self).inner.children
                    &&& final(self).inner.taskinfo == old(self).inner.taskinfo
                    &&& final(self).inner.program_brk == old(self).inner.program_brk
                    &&& final(self).inner.heap_bottom == old(self).inner.heap_bottom
                    &&& final(self).inner.task_status == old(self).inner.task_status
                    &&& forall|p: int|
                        old(fm).allocated().contains(p) ==> final(fm).allocated().contains(
                            p,
                        )
                    &&& forall|q: int|
                        old(fm).allocated().contains(q) ==> final(fm).frame(q) == old(
                            fm,
                        ).frame(q)
                    &&& forall|p: int|
                        #[trigger] final(fm).allocated().contains(p) ==> old(
                            fm,
                        ).allocated().contains(p)
                            || final(self).inner.memory_set.owned().contains(p)
                    &&& forall|p: int|
                        #[trigger] final(self).inner.memory_set.owned().contains(p) ==> old(
                            self,
                        ).inner.memory_set.owned().contains(p) || !old(
                            fm,
                        ).allocated().contains(p)
                }
            }),
    {
        if end_va.0 > usize::MAX - PAGE_SIZE {
            proof {
                let e = (end_va.0 + PAGE_SIZE - 1) as int / PAGE_SIZE as int;
                assert(e > crate::config::TRAMPOLINE_VPN) by (nonlinear_arith)
                    requires
                        end_va.0 > usize::MAX - PAGE_SIZE,
                        e == (end_va.0 + PAGE_SIZE - 1) as int / PAGE_SIZE as int,
                        PAGE_SIZE == 4096,
                        usize::MAX >= 0xffff_ffff,
                        crate::config::TRAMPOLINE_VPN < MAX_VPN,
                        MAX_VPN == 256,
                ;
                assert(!old(self).inner.memory_set.can_insert(
                    *old(fm),
                    start_va.0 as int / PAGE_SIZE as int,
                    e,
                ));
            }
            return -1;
        }
        let s = start_va.floor();
        let e = end_va.ceil();
        let ok = self.inner.memory_set.insert_framed_area(fm, s, e, permission.0);
        if ok {
            0
        } else {
            -1
        }
    }

    /// Unmap exactly the region previously registered over
    /// `[start_va, end_va)` (the munmap path).  Returns 0 on success and
    /// -1 when no region has exactly those bounds; on failure the
    /// address space is unchanged.
    pub fn release_current_area(&mut self, fm: &mut FrameManager, start_va: VirtAddr, end_va: VirtAddr) -> (r: isize)
        requires
            old(self).wf_in(*old(fm)),
            old(fm).wf(),
        ensures
            final(fm).wf(),
            final(fm).cap == old(fm).cap,
            final(self).wf_in(*final(fm)),
            final(fm).mem@ == old(fm).mem@,
            ({
                let s = start_va.0 as int / PAGE_SIZE as int;
                let e = (end_va.0 + PAGE_SIZE - 1) as int / PAGE_SIZE as int;
                &&& (r == 0 || r == -1)
                &&& (r == 0) == old(self).inner.memory_set.has_region(s, e)
                &&& r == -1 ==> *final(self) == *old(self) && *final(fm) == *old(fm)
                &&& r == 0 ==> {
                    &&& final(self).pid == old(self).pid
                    &&& final(self).kernel_stack == old(self).kernel_stack
                    &&& final(self).inner.parent == old(self).inner.parent
                    &&& final(self).inner.exit_code == old(self).inner.exit_code
                    &&& final(self).inner.trap_cx == old(self).inner.trap_cx
                    &&& final(self).inner.trap_cx_ppn == old(self).inner.trap_cx_ppn
                    &&& final(self).inner.base_size == old(self).inner.base_size
                    &&& final(self).inner.task_cx == old(self).inner.task_cx
                    &&& (forall|p: int|
                        #[trigger] final(fm).allocated().contains(p) <==> old(
                            fm,
                        ).allocated().contains(p) && !(exists|v: int|
                            s <= v < e && old(self).inner.memory_set.ppn_of(v) == p))
                    &&& (forall|v: int|
                        0 <= v < MAX_VPN && !(s <= v < e)
                            ==> final(self).inner.memory_set.pt.slots@[v] == old(
                            self,
                        ).inner.memory_set.pt.slots@[v])
                    &&& (forall|v: int|
                        s <= v < e ==> {
                            &&& old(self).inner.memory_set.translated(v) is Some
                            &&& final(self).inner.memory_set.translated(v) is None
                        })
                    &&& exists|i: int|
                        {
                            &&& 0 <= i < old(self).inner.memory_set.areas@.len()
                            &&& (#[trigger] old(self).inner.memory_set.areas@[i]).start_vpn
                                == s
                            &&& old(self).inner.memory_set.areas@[i].end_vpn == e
                            &&& final(self).inner.memory_set.regions() == old(
                                self,
                            ).inner.memory_set.regions().remove(i)
                        }
                    &&& final(self).inner.fd_table == old(self).inner.fd_table
                    &&& final(self).inner.children == old(self).inner.children
                    &&& final(self).inner.taskinfo == old(self).inner.taskinfo
                    &&& final(self).inner.program_brk == old(self).inner.program_brk
                    &&& final(self).inner.heap_bottom == old(self).inner.heap_bottom
                    &&& final(self).inner.task_status == old(self).inner.task_status
                    &&& forall|p: int|
                        #[trigger] final(fm).allocated().contains(p) ==> old(
                            fm,
                        ).allocated().contains(p)
                    &&& forall|p: int|
                        old(fm).allocated().contains(p) && !old(
                            self,
                        ).inner.memory_set.owned().contains(p)
                            ==> final(fm).allocated().contains(p)
                    &&& forall|p: int|
                        #[trigger] final(self).inner.memory_set.owned().contains(p) ==> old(
                            self,
                        ).inner.memory_set.owned().contains(p)
                }
            }),
    {
        if end_va.0 > usize::MAX - PAGE_SIZE {
            proof {
                let e = (end_va.0 + PAGE_SIZE - 1) as int / PAGE_SIZE as int;
                assert(e > crate::config::TRAMPOLINE_VPN) by (nonlinear_arith)
                    requires
                        end_va.0 > usize::MAX - PAGE_SIZE,
                        e == (end_va.0 + PAGE_SIZE - 1) as int / PAGE_SIZE as int,
                        PAGE_SIZE == 4096,
                        usize::MAX >= 0xffff_ffff,
                        crate::config::TRAMPOLINE_VPN < MAX_VPN,
                        MAX_VPN == 256,
                ;
                assert(!old(self).inner.memory_set.has_region(
                    start_va.0 as int / PAGE_SIZE as int,
                    e,
                ));
            }
            return -1;
        }
        let s = start_va.floor();
        let e = end_va.ceil();
        let ghost pre_self = *self;
        let ghost pre_fm = *fm;
        let ok = self.inner.memory_set.remove_region(fm, s, e);
        if ok {
            proof {
                crate::memory_set::lemma_owned_allocated(pre_self.inner.memory_set, pre_fm);
                assert forall|p: int|
                    pre_fm.allocated().contains(p)
                        && !pre_self.inner.memory_set.owned().contains(p) implies fm.allocated().contains(
                    p,
                ) by {
                    if exists|v: int|
                        s <= v < e && pre_self.inner.memory_set.ppn_of(v) == p {
                        let v = choose|v: int|
                            s <= v < e && pre_self.inner.memory_set.ppn_of(v) == p;
                        assert(pre_self.inner.memory_set.translated(v) is Some);
                        let ms = pre_self.inner.memory_set;
                        let iw = choose|iw: int|
                            0 <= iw < ms.areas@.len() && (#[trigger] ms.areas@[iw]).start_vpn
                                == s && ms.areas@[iw].end_vpn == e;
                        assert(ms.areas@[iw].end_vpn <= crate::config::TRAMPOLINE_VPN);
                        assert(v != crate::config::TRAMPOLINE_VPN);
                        if !(exists|i: int|
                            0 <= i < ms.areas@.len() && #[trigger] ms.in_area(i, v)) {
                            assert forall|i: int|
                                0 <= i < ms.areas@.len() implies !ms.in_area(i, v) by {}
                            assert(ms.pt.slots@[v] is None);
                            assert(false);
                        }
                        let i = choose|i: int|
                            0 <= i < ms.areas@.len() && #[trigger] ms.in_area(i, v);
                        assert(ms.areas@[i].frames@[v - ms.areas@[i].start_vpn] as int == p);
                        assert(ms.owned().contains(p));
                        assert(false);
                    }
                }
            }
            0
        } else {
            -1
        }
    }
}

} // verus!
