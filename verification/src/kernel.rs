//! The kernel state: frame pool, process table, stride-scheduler ready
//! set, the filesystem and console collaborators' visible state, and the
//! clock.  Syscalls mutate exactly this state.
use vstd::prelude::*;

use crate::frame::FrameManager;
use crate::memory_set::ProgramImage;
use crate::sched::stride_precedes;
use crate::task::{FileHandle, TaskControlBlock, TaskStatus};

verus! {

/// One entry of the kernel's open-file table; file-table slots of tasks
/// point here, so parent and child share offset and mode across fork.
#[derive(Copy, Clone, Debug, PartialEq, Eq, Structural)]
pub struct OpenFile {
    /// Index of the file's data.
    pub ino: usize,
    /// Read/write offset of this open end.
    pub offset: usize,
    /// Open for reading.
    pub readable: bool,
    /// Open for writing.
    pub writable: bool,
}

/// One directory entry: a name linked to an inode.
pub struct DirEnt {
    /// File name bytes.
    pub name: Vec<u8>,
    /// Inode the name links to.
    pub ino: usize,
}

/// A named program image the loader collaborator can hand out.
pub struct AppImage {
    /// Program name bytes.
    pub name: Vec<u8>,
    /// The parsed image.
    pub image: ProgramImage,
}

/// The whole kernel state.
pub struct Kernel {
    /// Physical frame pool.
    pub fm: FrameManager,
    /// Process table; the index is the pid.
    pub tasks: Vec<Option<TaskControlBlock>>,
    /// Pids freed by collected zombies, available again.
    pub recycled_pids: Vec<usize>,
    /// Pid of the running task, if any.
    pub current: Option<usize>,
    /// Pids of the Ready tasks.
    pub ready: Vec<usize>,
    /// Program images by name (the loader collaborator's directory).
    pub apps: Vec<AppImage>,
    /// Directory entries of the filesystem model.
    pub dir: Vec<DirEnt>,
    /// File contents by inode.
    pub files: Vec<Vec<u8>>,
    /// Open-file table shared by the tasks' file descriptors.
    pub open_files: Vec<OpenFile>,
    /// Everything written to the console so far.
    pub console_out: Vec<u8>,
    /// Bytes waiting on console input.
    pub console_in: Vec<u8>,
    /// The external monotonic clock, microseconds.
    pub time_us: usize,
}

impl Kernel {
    /// Pid `p` names a live task.
    pub open spec fn task_alive(self, p: int) -> bool {
        0 <= p < self.tasks@.len() && self.tasks@[p] is Some
    }

    /// The task with pid `p`.
    pub open spec fn task_at(self, p: int) -> TaskControlBlock {
        self.tasks@[p].unwrap()
    }

    /// Frames owned by the task with pid `p`.
    pub open spec fn owned_of(self, p: int) -> Set<int> {
        self.task_at(p).inner.memory_set.owned()
    }

    /// Stride of the `i`-th ready task.
    pub open spec fn ready_stride(self, i: int) -> u64 {
        self.tasks@[self.ready@[i] as int].unwrap().inner.taskinfo.stride.0
    }

    /// All ready strides lie pairwise within `BIG_STRIDE / 2` of each
    /// other: the range in which the wraparound-aware comparison is a
    /// total order (spec section 4.3 asks callers to keep priorities in
    /// this range).
    pub open spec fn ready_strides_comparable(self) -> bool {
        forall|i: int, j: int|
            #![trigger self.ready_stride(i), self.ready_stride(j)]
            0 <= i < self.ready@.len() && 0 <= j < self.ready@.len() ==> (
            self.ready_stride(i) <= self.ready_stride(j) ==> self.ready_stride(j)
                - self.ready_stride(i) <= crate::config::BIG_STRIDE / 2)
    }

    /// Kernel well-formedness: the frame pool is sound; the process
    /// table is self-indexed and every live task is well formed and owns
    /// frames disjointly from every other (one owner per mapped frame);
    /// recycled pids name free slots; the running and ready pids are
    /// live with matching status and no pid queues twice; file handles
    /// point into the open-file and inode tables.
    pub open spec fn wf(self) -> bool {
        &&& self.fm.wf()
        &&& self.tasks@.len() < 0xfffe
        &&& forall|p: int|
            0 <= p < self.tasks@.len() && self.tasks@[p] is Some ==> {
                &&& (#[trigger] self.tasks@[p]).unwrap().pid.0 == p
                &&& self.tasks@[p].unwrap().kernel_stack.0 == p
                &&& self.tasks@[p].unwrap().wf_in(self.fm)
            }
        &&& forall|p: int, q: int, x: int|
            0 <= p < self.tasks@.len() && 0 <= q < self.tasks@.len() && p != q
                && self.tasks@[p] is Some && self.tasks@[q] is Some && (#[trigger] self.tasks@[p].unwrap().inner.memory_set.owned().contains(
                x,
            )) ==> !(#[trigger] self.tasks@[q].unwrap().inner.memory_set.owned().contains(x))
        &&& forall|i: int|
            0 <= i < self.recycled_pids@.len() ==> (#[trigger] self.recycled_pids@[i])
                < self.tasks@.len() && self.tasks@[self.recycled_pids@[i] as int] is None
        &&& forall|i: int, j: int|
            0 <= i < j < self.recycled_pids@.len() ==> self.recycled_pids@[i]
                != self.recycled_pids@[j]
        &&& self.current matches Some(c) ==> 0 <= c < self.tasks@.len()
            && self.tasks@[c as int] is Some && self.tasks@[c as int].unwrap().inner.task_status
            == TaskStatus::Running
        &&& forall|i: int|
            0 <= i < self.ready@.len() ==> (#[trigger] self.ready@[i]) < self.tasks@.len()
                && self.tasks@[self.ready@[i] as int] is Some && self.tasks@[self.ready@[i] as int].unwrap().inner.task_status
                == TaskStatus::Ready
        &&& forall|i: int, j: int|
            0 <= i < j < self.ready@.len() ==> self.ready@[i] != self.ready@[j]
        &&& forall|k: int|
            0 <= k < self.open_files@.len() ==> (#[trigger] self.open_files@[k]).ino
                < self.files@.len()
        &&& forall|d: int|
            0 <= d < self.dir@.len() ==> (#[trigger] self.dir@[d]).ino < self.files@.len()
        &&& forall|p: int, j: int|
            0 <= p < self.tasks@.len() && self.tasks@[p] is Some && 0 <= j < (
            #[trigger] self.tasks@[p]).unwrap().inner.fd_table@.len() ==> ((
            #[trigger] self.tasks@[p].unwrap().inner.fd_table@[j]) matches Some(
                FileHandle::File(k),
            ) ==> k < self.open_files@.len())
    }

    /// A task changed only in ways that touch no frame keeps every other
    /// task well formed: it freed only its own frames and took only
    /// frames nobody owned.
    pub proof fn lemma_bystander_preserved(
        t: TaskControlBlock,
        fm0: FrameManager,
        fm1: FrameManager,
        oc0: Set<int>,
        oc1: Set<int>,
    )
        requires
            t.wf_in(fm0),
            t.inner.memory_set.owned().disjoint(oc0),
            forall|p: int|
                fm0.allocated().contains(p) && !oc0.contains(p) ==> #[trigger] fm1.allocated().contains(p),
            forall|p: int| #[trigger] oc1.contains(p) ==> oc0.contains(p) || !fm0.allocated().contains(p),
        ensures
            t.wf_in(fm1),
            t.inner.memory_set.owned().disjoint(oc1),
    {
        let ms = t.inner.memory_set;
        crate::memory_set::lemma_owned_allocated(ms, fm0);
        assert forall|i: int, k: int|
            0 <= i < ms.areas@.len() && 0 <= k
                < ms.areas@[i].frames@.len() implies fm1.allocated().contains(
            #[trigger] ms.areas@[i].frames@[k] as int,
        ) by {
            let x = ms.areas@[i].frames@[k] as int;
            assert(ms.owned().contains(x));
            assert(!oc0.contains(x));
            assert(fm0.allocated().contains(x));
        }
        assert(ms.owned().contains(ms.pt.root_ppn as int));
        assert(fm1.allocated().contains(ms.pt.root_ppn as int));
        assert forall|x: int| ms.owned().contains(x) implies !oc1.contains(x) by {
            assert(!oc0.contains(x));
            assert(fm0.allocated().contains(x));
        }
        assert(ms.owned().disjoint(oc1));
    }

    /// Allocate a pid (and with it a kernel-stack slot): a recycled one
    /// first, else a fresh table slot.  Fails when the pid space is
    /// exhausted.
    #[verifier::rlimit(100)]
    pub fn pid_alloc(&mut self) -> (r: Option<usize>)
        requires
            old(self).wf(),
        ensures
            final(self).fm == old(self).fm,
            final(self).current == old(self).current,
            final(self).ready == old(self).ready,
            final(self).apps == old(self).apps,
            final(self).dir == old(self).dir,
            final(self).files == old(self).files,
            final(self).open_files == old(self).open_files,
            final(self).console_out == old(self).console_out,
            final(self).console_in == old(self).console_in,
            final(self).time_us == old(self).time_us,
            final(self).wf(),
            r is None ==> final(self).tasks@ == old(self).tasks@ && final(self).recycled_pids@ == old(self).recycled_pids@,
            old(self).recycled_pids@.len() > 0 || old(self).tasks@.len() < 0xfffd ==> r
                is Some,
            r is Some ==> {
                let p = r.unwrap();
                &&& p < final(self).tasks@.len() < 0xfffe
                &&& final(self).tasks@[p as int] is None
                &&& forall|q: int|
                    0 <= q < old(self).tasks@.len() ==> final(self).tasks@[q] == old(
                        self,
                    ).tasks@[q]
                &&& final(self).tasks@.len() >= old(self).tasks@.len()
                &&& forall|i: int|
                    0 <= i < final(self).recycled_pids@.len() ==> {
                        &&& (#[trigger] final(self).recycled_pids@[i]) < final(self).tasks@.len()
                        &&& final(self).tasks@[final(self).recycled_pids@[i] as int] is None
                        &&& final(self).recycled_pids@[i] != p
                    }
                &&& forall|i: int, j: int|
                    0 <= i < j < final(self).recycled_pids@.len() ==> final(self).recycled_pids@[i] != final(self).recycled_pids@[j]
            },
    {
        match self.recycled_pids.pop() {
            Some(p) => Some(p),
            None => {
                if self.tasks.len() >= 0xfffd {
                    return None;
                }
                self.tasks.push(None);
                Some(self.tasks.len() - 1)
            },
        }
    }

    /// Put a task into its pid's slot.
    #[verifier::rlimit(100)]
    pub fn install_task(&mut self, t: TaskControlBlock)
        requires
            t.pid.0 < old(self).tasks@.len(),
            old(self).tasks@[t.pid.0 as int] is None,
        ensures
            final(self).tasks@ == old(self).tasks@.update(t.pid.0 as int, Some(t)),
            final(self).fm == old(self).fm,
            final(self).current == old(self).current,
            final(self).ready == old(self).ready,
            final(self).recycled_pids == old(self).recycled_pids,
            final(self).apps == old(self).apps,
            final(self).dir == old(self).dir,
            final(self).files == old(self).files,
            final(self).open_files == old(self).open_files,
            final(self).console_out == old(self).console_out,
            final(self).console_in == old(self).console_in,
            final(self).time_us == old(self).time_us,
    {
        let p = t.pid.0;
        self.tasks.set(p, Some(t));
    }

    /// Append a Ready task's pid to the scheduler's ready set.
    #[verifier::rlimit(100)]
    pub fn add_task(&mut self, p: usize)
        requires
            old(self).wf(),
            old(self).task_alive(p as int),
            old(self).task_at(p as int).inner.task_status == TaskStatus::Ready,
            old(self).ready@.len() < usize::MAX,
            forall|i: int| 0 <= i < old(self).ready@.len() ==> old(self).ready@[i] != p,
        ensures
            final(self).wf(),
            final(self).ready@ == old(self).ready@.push(p),
            final(self).fm == old(self).fm,
            final(self).tasks == old(self).tasks,
            final(self).recycled_pids == old(self).recycled_pids,
            final(self).current == old(self).current,
            final(self).apps == old(self).apps,
            final(self).dir == old(self).dir,
            final(self).files == old(self).files,
            final(self).open_files == old(self).open_files,
            final(self).console_out == old(self).console_out,
            final(self).console_in == old(self).console_in,
            final(self).time_us == old(self).time_us,
    {
        self.ready.push(p);
    }

    /// Select the next task from the ready set by wraparound-aware
    /// stride comparison (earliest queue position wins ties,
    /// deterministically), remove it, charge it one pass, mark it
    /// Running and make it current.  With an empty ready set the
    /// processor goes idle (no current task).
    #[verifier::rlimit(100)]
    pub fn run_next(&mut self)
        requires
            old(self).wf(),
            old(self).current is None,
        ensures
            final(self).wf(),
            final(self).fm == old(self).fm,
            final(self).files == old(self).files,
            final(self).dir == old(self).dir,
            final(self).open_files == old(self).open_files,
            final(self).console_out == old(self).console_out,
            final(self).console_in == old(self).console_in,
            final(self).apps == old(self).apps,
            final(self).recycled_pids == old(self).recycled_pids,
            old(self).ready@.len() == 0 ==> *final(self) == *old(self),
            old(self).ready@.len() > 0 ==> {
                let c = final(self).current.unwrap() as int;
                &&& final(self).current is Some
                &&& exists|i: int|
                    0 <= i < old(self).ready@.len() && old(self).ready@[i] == c && final(self).ready@ == old(self).ready@.remove(i)
                &&& (old(self).ready_strides_comparable() ==> exists|i: int|
                    {
                        &&& 0 <= i < old(self).ready@.len()
                        &&& old(self).ready@[i] == c
                        &&& final(self).ready@ == old(self).ready@.remove(i)
                        &&& forall|j: int|
                            0 <= j < old(self).ready@.len() ==> stride_precedes(
                                old(self).ready_stride(i),
                                #[trigger] old(self).ready_stride(j),
                            )
                        &&& forall|l: int|
                            0 <= l < i ==> !stride_precedes(
                                #[trigger] old(self).ready_stride(l),
                                old(self).ready_stride(i),
                            )
                    })
                &&& old(self).tasks@[c] is Some
                &&& final(self).tasks@[c] is Some
                &&& final(self).tasks@[c].unwrap().inner.task_status == TaskStatus::Running
                &&& final(self).tasks@[c].unwrap().inner.taskinfo.stride.0 == (old(
                    self,
                ).tasks@[c].unwrap().inner.taskinfo.stride.0 + old(self).tasks@[
                    c].unwrap().inner.taskinfo.pass) % 0x1_0000_0000_0000_0000
                &&& final(self).tasks@[c].unwrap().inner.taskinfo.pass == old(self).tasks@[
                    c].unwrap().inner.taskinfo.pass
                &&& final(self).tasks@[c].unwrap().inner.memory_set == old(self).tasks@[
                    c].unwrap().inner.memory_set
                &&& final(self).tasks@[c].unwrap().inner.parent == old(self).tasks@[
                    c].unwrap().inner.parent
                &&& final(self).tasks@[c].unwrap().inner.children == old(self).tasks@[
                    c].unwrap().inner.children
                &&& final(self).tasks@[c].unwrap().inner.fd_table == old(self).tasks@[
                    c].unwrap().inner.fd_table
                &&& final(self).tasks@[c].unwrap().inner.exit_code == old(self).tasks@[
                    c].unwrap().inner.exit_code
                &&& final(self).tasks@[c].unwrap().inner.program_brk == old(self).tasks@[
                    c].unwrap().inner.program_brk
                &&& final(self).tasks@[c].unwrap().inner.heap_bottom == old(self).tasks@[
                    c].unwrap().inner.heap_bottom
                &&& forall|q: int|
                    0 <= q < old(self).tasks@.len() && q != c ==> final(self).tasks@[q]
                        == old(self).tasks@[q]
                &&& final(self).tasks@.len() == old(self).tasks@.len()
            },
    {
        let ghost pre = *self;
        if self.ready.len() == 0 {
            return ;
        }
        let n = self.ready.len();
        let mut best: usize = 0;
        let mut j: usize = 1;
        while j < n
            invariant
                *self == pre,
                n == self.ready@.len(),
                0 <= best < j <= n,
                self.wf(),
                pre.ready_strides_comparable() ==> {
                    &&& forall|l: int|
                        0 <= l < j ==> stride_precedes(
                            pre.ready_stride(best as int),
                            #[trigger] pre.ready_stride(l),
                        )
                    &&& forall|l: int|
                        0 <= l < best ==> !stride_precedes(
                            #[trigger] pre.ready_stride(l),
                            pre.ready_stride(best as int),
                        )
                },
            decreases n - j,
        {
            let bp = self.ready[best];
            let cp = self.ready[j];
            let sb = match &self.tasks[bp] {
                Some(t) => t.get_stride(),
                None => {
                    proof {
                        assert(false);
                    }
                    crate::sched::Stride(0)
                },
            };
            let sc = match &self.tasks[cp] {
                Some(t) => t.get_stride(),
                None => {
                    proof {
                        assert(false);
                    }
                    crate::sched::Stride(0)
                },
            };
            let ghost prev_best = best as int;
            if !sb.precedes(&sc) {
                best = j;
            }
            proof {
                assert(sb.0 == pre.ready_stride(prev_best));
                assert(sc.0 == pre.ready_stride(j as int));
                if pre.ready_strides_comparable() {
                    crate::sched::lemma_stride_cmp_wraparound_safe(
                        pre.ready_stride(prev_best),
                        pre.ready_stride(j as int),
                    );
                    assert forall|l: int| 0 <= l <= j implies stride_precedes(
                        pre.ready_stride(best as int),
                        #[trigger] pre.ready_stride(l),
                    ) by {
                        crate::sched::lemma_stride_cmp_wraparound_safe(
                            pre.ready_stride(best as int),
                            pre.ready_stride(l),
                        );
                        crate::sched::lemma_stride_cmp_wraparound_safe(
                            pre.ready_stride(prev_best),
                            pre.ready_stride(l),
                        );
                        if l < j {
                            assert(stride_precedes(
                                pre.ready_stride(prev_best),
                                pre.ready_stride(l),
                            ));
                        }
                    }
                    assert forall|l: int| 0 <= l < best implies !stride_precedes(
                        #[trigger] pre.ready_stride(l),
                        pre.ready_stride(best as int),
                    ) by {
                        crate::sched::lemma_stride_cmp_wraparound_safe(
                            pre.ready_stride(l),
                            pre.ready_stride(best as int),
                        );
                        crate::sched::lemma_stride_cmp_wraparound_safe(
                            pre.ready_stride(l),
                            pre.ready_stride(prev_best),
                        );
                        crate::sched::lemma_stride_cmp_wraparound_safe(
                            pre.ready_stride(prev_best),
                            pre.ready_stride(l),
                        );
                        if l < prev_best {
                            assert(!stride_precedes(
                                pre.ready_stride(l),
                                pre.ready_stride(prev_best),
                            ));
                        } else if best as int == j as int && prev_best <= l {
                            assert(stride_precedes(
                                pre.ready_stride(prev_best),
                                pre.ready_stride(l),
                            ));
                        }
                    }
                }
            }
            j += 1;
        }
        let c = self.ready.remove(best);
        let ghost mid = *self;
        let mut slot: Option<TaskControlBlock> = None;
        let slot_ref = &mut self.tasks[c];
        core::mem::swap(slot_ref, &mut slot);
        let mut t = match slot {
            Some(t) => t,
            None => {
                proof {
                    assert(false);
                }
                return ;
            },
        };
        t.inner.task_status = TaskStatus::Running;
        t.inner.taskinfo.add_stride();
        if t.inner.taskinfo.time == 0 {
            // first dispatch: stamp the clock once; the field then keeps
            // the task's start time (the clock is monotonic from boot)
            t.inner.taskinfo.time = self.time_us;
        }
        self.tasks.set(c, Some(t));
        self.current = Some(c);
        proof {
            assert(self.tasks@ =~= pre.tasks@.update(c as int, self.tasks@[c as int]));
            assert forall|i2: int|
                0 <= i2 < self.ready@.len() implies (#[trigger] self.ready@[i2])
                < self.tasks@.len() && self.tasks@[self.ready@[i2] as int] is Some
                && self.tasks@[self.ready@[i2] as int].unwrap().inner.task_status
                == TaskStatus::Ready by {
                if i2 < best {
                    assert(pre.ready@[i2] == self.ready@[i2]);
                    assert(pre.ready@[i2] != pre.ready@[best as int]);
                } else {
                    assert(pre.ready@[i2 + 1] == self.ready@[i2]);
                    assert(pre.ready@[i2 + 1] != pre.ready@[best as int]);
                }
            }
            assert forall|i2: int, j2: int|
                0 <= i2 < j2 < self.ready@.len() implies self.ready@[i2]
                != self.ready@[j2] by {
                let io: int = if i2 < best {
                    i2
                } else {
                    i2 + 1
                };
                let jo: int = if j2 < best {
                    j2
                } else {
                    j2 + 1
                };
                assert(pre.ready@[io] == self.ready@[i2]);
                assert(pre.ready@[jo] == self.ready@[j2]);
            }
            assert(0 <= best < pre.ready@.len() && pre.ready@[best as int] == c as int
                && self.ready@ == pre.ready@.remove(best as int));
            if pre.ready_strides_comparable() {
                assert(forall|j2: int|
                    0 <= j2 < pre.ready@.len() ==> stride_precedes(
                        pre.ready_stride(best as int),
                        #[trigger] pre.ready_stride(j2),
                    ));
            }
        }
    }

    /// Yield: the current task goes back to Ready at the tail of the
    /// queue and the next task is dispatched.
    #[verifier::rlimit(100)]
    pub fn suspend_current_and_run_next(&mut self)
        requires
            old(self).wf(),
            old(self).current is Some,
            old(self).ready@.len() < usize::MAX,
        ensures
            final(self).wf(),
            final(self).fm == old(self).fm,
            final(self).files == old(self).files,
            final(self).dir == old(self).dir,
            final(self).open_files == old(self).open_files,
            final(self).console_out == old(self).console_out,
            final(self).console_in == old(self).console_in,
            final(self).apps == old(self).apps,
            final(self).recycled_pids == old(self).recycled_pids,
            final(self).tasks@.len() == old(self).tasks@.len(),
            final(self).current is Some,
            ({
                let c0 = old(self).current.unwrap();
                let queued = old(self).ready@.push(c0);
                let c = final(self).current.unwrap() as int;
                &&& exists|i: int|
                    0 <= i < queued.len() && queued[i] == c && final(self).ready@
                        == queued.remove(i)
                &&& final(self).tasks@[c] is Some
                &&& final(self).tasks@[c].unwrap().inner.task_status == TaskStatus::Running
                &&& forall|q: int|
                    0 <= q < old(self).tasks@.len() && q != c && q != c0 as int
                        ==> final(self).tasks@[q] == old(self).tasks@[q]
                &&& (c != c0 as int ==> final(self).tasks@[c0 as int].unwrap().inner.task_status
                    == TaskStatus::Ready)
            }),
    {
        let c = match self.current {
            Some(c) => c,
            None => {
                proof {
                    assert(false);
                }
                return ;
            },
        };
        let ghost pre = *self;
        let mut slot: Option<TaskControlBlock> = None;
        let slot_ref = &mut self.tasks[c];
        core::mem::swap(slot_ref, &mut slot);
        let mut t = match slot {
            Some(t) => t,
            None => {
                proof {
                    assert(false);
                }
                return ;
            },
        };
        t.inner.task_status = TaskStatus::Ready;
        self.tasks.set(c, Some(t));
        self.current = None;
        proof {
            assert(self.tasks@ =~= pre.tasks@.update(c as int, self.tasks@[c as int]));
            assert forall|p: int, q: int, x: int|
                self.task_alive(p) && self.task_alive(q) && p != q && #[trigger] self.owned_of(
                    p,
                ).contains(x) implies !(#[trigger] self.owned_of(q).contains(x)) by {
                assert(self.owned_of(p) == pre.owned_of(p));
                assert(self.owned_of(q) == pre.owned_of(q));
            }
        }
        let ghost mid2 = *self;
        proof {
            assert forall|i: int| 0 <= i < self.ready@.len() implies self.ready@[i] != c by {
                assert(pre.task_at(pre.ready@[i] as int).inner.task_status
                    == TaskStatus::Ready);
            }
        }
        self.ready.push(c);
        let ghost mid3 = *self;
        self.run_next();
        proof {
            assert(mid3.ready@.len() > 0);
            let cn = self.current.unwrap() as int;
            let iw = choose|iw: int|
                0 <= iw < mid3.ready@.len() && mid3.ready@[iw] == cn && self.ready@
                    == mid3.ready@.remove(iw);
            assert(mid3.ready@ == pre.ready@.push(c));
            assert forall|q: int|
                0 <= q < pre.tasks@.len() && q != cn && q != c as int implies self.tasks@[q]
                == pre.tasks@[q] by {
                assert(self.tasks@[q] == mid3.tasks@[q]);
            }
        }
    }
}

} // verus!
