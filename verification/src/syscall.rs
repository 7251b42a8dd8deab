//! The syscall surface: every call validates its arguments through the
//! translation layer, mutates the kernel state, and reports failure only
//! as a negative return code, never a kernel fault.
use vstd::prelude::*;
use vstd::pervasive::unreached;

use crate::config::{MAX_SYSCALL_NUM, PAGE_SIZE, PTE_R, PTE_U, PTE_W, PTE_X, STR_MAX_LEN};
use crate::kernel::{Kernel, OpenFile};
use crate::memory_set::MemorySet;
use crate::task::{FileHandle, MapPermission, TaskControlBlock, TaskStatus, VirtAddr};
use crate::uaccess::{copy_in, copy_out, range_ok, translated_str, user_byte};

verus! {

/// Seconds and microseconds, as written for the user by `sys_get_time`.
#[derive(Copy, Clone, Debug, PartialEq, Eq, Structural)]
pub struct TimeVal {
    /// Whole seconds.
    pub sec: usize,
    /// Microseconds below one second.
    pub usec: usize,
}

/// Task information, as written for the user by `sys_task_info`.
pub struct TaskInfo {
    /// Status in the task's life cycle.
    pub status: TaskStatus,
    /// Count per syscall number.
    pub syscall_times: Vec<u32>,
    /// Milliseconds elapsed since the task's first dispatch.
    pub time: usize,
}

/// Milliseconds elapsed since a task was first dispatched (zero when
/// the clock sits before the dispatch stamp).
pub open spec fn elapsed_ms(now_us: int, dispatched_us: int) -> int {
    if now_us >= dispatched_us {
        (now_us - dispatched_us) / 1000
    } else {
        0
    }
}

/// Little-endian bytes of the per-syscall counters, in order.
pub open spec fn counter_bytes(times: Seq<u32>) -> Seq<u8>
    decreases times.len(),
{
    if times.len() == 0 {
        Seq::empty()
    } else {
        counter_bytes(times.drop_last()) + vstd::bytes::spec_u32_to_le_bytes(times.last())
    }
}

/// The byte layout `sys_task_info` writes: the status word (Running),
/// the counters, then milliseconds since first dispatch.
pub open spec fn task_info_bytes(times: Seq<u32>, ms: int) -> Seq<u8> {
    vstd::bytes::spec_u64_to_le_bytes(2u64) + counter_bytes(times)
        + vstd::bytes::spec_u64_to_le_bytes(ms as u64)
}

/// The bytes the current task sees at `[va, va + len)`.
pub open spec fn cur_bytes(k: Kernel, va: int, len: int) -> Seq<u8> {
    Seq::new(
        len as nat,
        |j: int| user_byte(k.task_at(k.current.unwrap() as int).inner.memory_set, k.fm, va + j),
    )
}

/// Swap the current task out of the table; the caller puts it back.
fn take_current(k: &mut Kernel) -> (t: TaskControlBlock)
    requires
        old(k).wf(),
        old(k).current is Some,
    ensures
        t == old(k).task_at(old(k).current.unwrap() as int),
        final(k).tasks@ == old(k).tasks@.update(old(k).current.unwrap() as int, None),
        final(k).fm == old(k).fm,
        final(k).current == old(k).current,
        final(k).ready == old(k).ready,
        final(k).recycled_pids == old(k).recycled_pids,
        final(k).apps == old(k).apps,
        final(k).dir == old(k).dir,
        final(k).files == old(k).files,
        final(k).open_files == old(k).open_files,
        final(k).console_out == old(k).console_out,
        final(k).console_in == old(k).console_in,
        final(k).time_us == old(k).time_us,
        t.wf_in(final(k).fm),
        t.pid.0 == old(k).current.unwrap(),
        t.kernel_stack.0 == old(k).current.unwrap(),
        t.inner.task_status == TaskStatus::Running,
{
    let c = match k.current {
        Some(c) => c,
        None => {
            proof {
                assert(false);
            }
            0
        },
    };
    let mut slot: Option<TaskControlBlock> = None;
    let slot_ref = &mut k.tasks[c];
    core::mem::swap(slot_ref, &mut slot);
    proof {
        assert(k.tasks@ =~= old(k).tasks@.update(c as int, None));
    }
    match slot {
        Some(t) => t,
        None => unreached(),
    }
}

/// Put the current task back and re-establish kernel well-formedness
/// after an operation that touched only the current task's space: it
/// freed only its own frames and took only frames nobody owned.
fn put_current(k: &mut Kernel, t: TaskControlBlock, Ghost(fm0): Ghost<crate::frame::FrameManager>, Ghost(oc0): Ghost<Set<int>>)
    requires
        old(k).current is Some,
        old(k).current.unwrap() < old(k).tasks@.len(),
        old(k).tasks@[old(k).current.unwrap() as int] is None,
        t.pid.0 == old(k).current.unwrap(),
        t.kernel_stack.0 == old(k).current.unwrap(),
        t.wf_in(old(k).fm),
        t.inner.task_status == TaskStatus::Running,
        old(k).fm.wf(),
        old(k).tasks@.len() < 0xfffe,
        // the pre-operation pool and the current task's pre-operation frames
        forall|p: int| 0 <= p < old(k).tasks@.len() && old(k).tasks@[p] is Some ==> {
            &&& (#[trigger] old(k).tasks@[p]).unwrap().pid.0 == p
            &&& old(k).tasks@[p].unwrap().kernel_stack.0 == p
            &&& old(k).tasks@[p].unwrap().wf_in(fm0)
            &&& old(k).tasks@[p].unwrap().inner.memory_set.owned().disjoint(oc0)
        },
        forall|p: int, q: int, x: int|
            0 <= p < old(k).tasks@.len() && 0 <= q < old(k).tasks@.len() && p != q
                && old(k).tasks@[p] is Some && old(k).tasks@[q] is Some && (
            #[trigger] old(k).tasks@[p].unwrap().inner.memory_set.owned().contains(x)) ==> !(
            #[trigger] old(k).tasks@[q].unwrap().inner.memory_set.owned().contains(x)),
        forall|p: int|
            fm0.allocated().contains(p) && !oc0.contains(p)
                ==> #[trigger] old(k).fm.allocated().contains(p),
        forall|p: int| #[trigger] t.inner.memory_set.owned().contains(p) ==> oc0.contains(p)
            || !fm0.allocated().contains(p),
        forall|i: int|
            0 <= i < old(k).recycled_pids@.len() ==> (#[trigger] old(k).recycled_pids@[i])
                < old(k).tasks@.len() && old(k).tasks@[old(k).recycled_pids@[i] as int]
                is None && old(k).recycled_pids@[i] != old(k).current.unwrap(),
        forall|i: int, j: int|
            0 <= i < j < old(k).recycled_pids@.len() ==> old(k).recycled_pids@[i] != old(
                k,
            ).recycled_pids@[j],
        forall|i: int|
            0 <= i < old(k).ready@.len() ==> (#[trigger] old(k).ready@[i]) < old(
                k,
            ).tasks@.len() && old(k).tasks@[old(k).ready@[i] as int] is Some && old(k).tasks@[old(
                k,
            ).ready@[i] as int].unwrap().inner.task_status == TaskStatus::Ready && old(
                k,
            ).ready@[i] != old(k).current.unwrap(),
        forall|i: int, j: int|
            0 <= i < j < old(k).ready@.len() ==> old(k).ready@[i] != old(k).ready@[j],
        forall|kk: int|
            0 <= kk < old(k).open_files@.len() ==> (#[trigger] old(k).open_files@[kk]).ino
                < old(k).files@.len(),
        forall|d: int|
            0 <= d < old(k).dir@.len() ==> (#[trigger] old(k).dir@[d]).ino < old(
                k,
            ).files@.len(),
        forall|p: int, j: int|
            0 <= p < old(k).tasks@.len() && old(k).tasks@[p] is Some && 0 <= j < (
            #[trigger] old(k).tasks@[p]).unwrap().inner.fd_table@.len() ==> ((
            #[trigger] old(k).tasks@[p].unwrap().inner.fd_table@[j]) matches Some(
                FileHandle::File(kk),
            ) ==> kk < old(k).open_files@.len()),
        forall|j: int|
            0 <= j < t.inner.fd_table@.len() ==> ((#[trigger] t.inner.fd_table@[j]) matches Some(
                FileHandle::File(kk),
            ) ==> kk < old(k).open_files@.len()),
    ensures
        final(k).wf(),
        final(k).tasks@ == old(k).tasks@.update(old(k).current.unwrap() as int, Some(t)),
        final(k).fm == old(k).fm,
        final(k).current == old(k).current,
        final(k).ready == old(k).ready,
        final(k).recycled_pids == old(k).recycled_pids,
        final(k).apps == old(k).apps,
        final(k).dir == old(k).dir,
        final(k).files == old(k).files,
        final(k).open_files == old(k).open_files,
        final(k).console_out == old(k).console_out,
        final(k).console_in == old(k).console_in,
        final(k).time_us == old(k).time_us,
{
    let c = match k.current {
        Some(c) => c,
        None => {
            proof {
                assert(false);
            }
            0
        },
    };
    k.tasks.set(c, Some(t));
    proof {
        let post = *k;
        assert forall|p: int|
            0 <= p < post.tasks@.len() && post.tasks@[p] is Some implies {
            &&& (#[trigger] post.tasks@[p]).unwrap().pid.0 == p
            &&& post.tasks@[p].unwrap().kernel_stack.0 == p
            &&& post.tasks@[p].unwrap().wf_in(post.fm)
        } by {
            if p != c as int {
                Kernel::lemma_bystander_preserved(
                    old(k).tasks@[p].unwrap(),
                    fm0,
                    post.fm,
                    oc0,
                    t.inner.memory_set.owned(),
                );
            }
        }
        assert forall|p: int, q: int, x: int|
            0 <= p < post.tasks@.len() && 0 <= q < post.tasks@.len() && p != q
                && post.tasks@[p] is Some && post.tasks@[q] is Some && (
        #[trigger] post.tasks@[p].unwrap().inner.memory_set.owned().contains(x)) implies !(
        #[trigger] post.tasks@[q].unwrap().inner.memory_set.owned().contains(x)) by {
            if p == c as int {
                Kernel::lemma_bystander_preserved(
                    old(k).tasks@[q].unwrap(),
                    fm0,
                    post.fm,
                    oc0,
                    t.inner.memory_set.owned(),
                );
            } else if q == c as int {
                Kernel::lemma_bystander_preserved(
                    old(k).tasks@[p].unwrap(),
                    fm0,
                    post.fm,
                    oc0,
                    t.inner.memory_set.owned(),
                );
            }
        }
    }
}

/// Permission mask derived from the `port` bits of `sys_mmap`.
pub open spec fn spec_mmap_perm(port: usize) -> u8 {
    (PTE_U | (if port & 1 != 0 {
        PTE_R
    } else {
        0
    }) | (if port & 2 != 0 {
        PTE_W
    } else {
        0
    }) | (if port & 4 != 0 {
        PTE_X
    } else {
        0
    })) as u8
}

/// Yield the processor: the current task re-queues as Ready and the
/// scheduler dispatches the next one.
pub fn sys_yield(k: &mut Kernel) -> (r: isize)
    requires
        old(k).wf(),
        old(k).current is Some,
        old(k).ready@.len() < usize::MAX,
    ensures
        final(k).wf(),
        final(k).fm == old(k).fm,
        final(k).files == old(k).files,
        final(k).dir == old(k).dir,
        final(k).open_files == old(k).open_files,
        final(k).console_out == old(k).console_out,
        final(k).console_in == old(k).console_in,
        final(k).tasks@.len() == old(k).tasks@.len(),
        final(k).current is Some,
        ({
            let c0 = old(k).current.unwrap();
            let queued = old(k).ready@.push(c0);
            let c = final(k).current.unwrap() as int;
            &&& exists|i: int|
                0 <= i < queued.len() && queued[i] == c && final(k).ready@ == queued.remove(
                    i,
                )
            &&& final(k).tasks@[c] is Some
            &&& final(k).tasks@[c].unwrap().inner.task_status == TaskStatus::Running
            &&& forall|q: int|
                0 <= q < old(k).tasks@.len() && q != c && q != c0 as int ==> final(k).tasks@[q]
                    == old(k).tasks@[q]
            &&& (c != c0 as int ==> final(k).tasks@[c0 as int].unwrap().inner.task_status
                == TaskStatus::Ready)
        }),
        r == 0,
{
    k.suspend_current_and_run_next();
    0
}

/// Pid of the current task.
pub fn sys_getpid(k: &Kernel) -> (r: isize)
    requires
        k.wf(),
        k.current is Some,
    ensures
        r == k.current.unwrap(),
{
    match k.current {
        Some(c) => c as isize,
        None => unreached(),
    }
}

/// Set the current task's scheduling priority.  `prio <= 1` fails and
/// changes nothing; otherwise the priority is recorded and the pass
/// used at the next dispatch becomes `BIG_STRIDE / prio` immediately.
pub fn sys_set_priority(k: &mut Kernel, prio: isize) -> (r: isize)
    requires
        old(k).wf(),
        old(k).current is Some,
    ensures
        final(k).wf(),
        prio <= 1 ==> r == -1 && *final(k) == *old(k),
        prio >= 2 ==> {
            let c = old(k).current.unwrap() as int;
            let t0 = old(k).tasks@[c].unwrap();
            let t1 = final(k).tasks@[c].unwrap();
            &&& r == prio
            &&& t1.inner.taskinfo.priority == prio as u64
            &&& t1.inner.taskinfo.pass == crate::config::BIG_STRIDE / (prio as u64)
            &&& t1.inner.taskinfo.stride == t0.inner.taskinfo.stride
            &&& t1.inner.taskinfo.syscall_times == t0.inner.taskinfo.syscall_times
            &&& t1.inner.taskinfo.time == t0.inner.taskinfo.time
            &&& t1.inner.memory_set == t0.inner.memory_set
            &&& t1.inner.fd_table == t0.inner.fd_table
            &&& t1.inner.children == t0.inner.children
            &&& t1.inner.task_status == t0.inner.task_status
            &&& t1.inner.trap_cx == t0.inner.trap_cx
            &&& t1.inner.heap_bottom == t0.inner.heap_bottom
            &&& t1.inner.program_brk == t0.inner.program_brk
            &&& t1.inner.base_size == t0.inner.base_size
            &&& t1.inner.parent == t0.inner.parent
            &&& t1.inner.exit_code == t0.inner.exit_code
            &&& final(k).tasks@ == old(k).tasks@.update(c, Some(t1))
            &&& final(k).fm == old(k).fm
            &&& final(k).ready == old(k).ready
            &&& final(k).current == old(k).current
        },
{
    if prio <= 1 {
        return -1;
    }
    let ghost k0 = *k;
    let mut t = take_current(k);
    let ghost fm0 = k.fm;
    let ghost oc0 = t.inner.memory_set.owned();
    t.inner.taskinfo.priority = prio as u64;
    t.inner.taskinfo.pass = crate::config::BIG_STRIDE / (prio as u64);
    proof {
        sys_put_prep(k0, oc0);
    }
    put_current(k, t, Ghost(fm0), Ghost(oc0));
    prio
}

/// Facts `put_current` needs, derived from the kernel state as it was
/// before the current task was taken out: every live task owns its
/// frames apart from the current task's, and neither a recycled pid nor
/// a ready pid names the running task.
pub proof fn sys_put_prep(k0: Kernel, oc0: Set<int>)
    requires
        k0.wf(),
        k0.current is Some,
        oc0 == k0.tasks@[k0.current.unwrap() as int].unwrap().inner.memory_set.owned(),
    ensures
        forall|p: int|
            0 <= p < k0.tasks@.len() && p != k0.current.unwrap() as int && k0.tasks@[p]
                is Some ==> (#[trigger] k0.tasks@[p]).unwrap().inner.memory_set.owned().disjoint(
                oc0,
            ),
        forall|i: int|
            0 <= i < k0.recycled_pids@.len() ==> (#[trigger] k0.recycled_pids@[i])
                != k0.current.unwrap(),
        forall|i: int|
            0 <= i < k0.ready@.len() ==> (#[trigger] k0.ready@[i]) != k0.current.unwrap(),
{
    let c = k0.current.unwrap() as int;
    assert forall|p: int|
        0 <= p < k0.tasks@.len() && p != c && k0.tasks@[p] is Some implies (
    #[trigger] k0.tasks@[p]).unwrap().inner.memory_set.owned().disjoint(oc0) by {
        assert forall|x: int|
            k0.tasks@[p].unwrap().inner.memory_set.owned().contains(x) implies !oc0.contains(
            x,
        ) by {
            assert(!(k0.tasks@[c].unwrap().inner.memory_set.owned().contains(x)));
        }
        assert(k0.tasks@[p].unwrap().inner.memory_set.owned().disjoint(oc0));
    }
    assert forall|i: int| 0 <= i < k0.recycled_pids@.len() implies (
    #[trigger] k0.recycled_pids@[i]) != k0.current.unwrap() by {
        assert(k0.tasks@[k0.recycled_pids@[i] as int] is None);
    }
    assert forall|i: int| 0 <= i < k0.ready@.len() implies (#[trigger] k0.ready@[i])
        != k0.current.unwrap() by {
        assert(k0.tasks@[k0.ready@[i] as int].unwrap().inner.task_status == TaskStatus::Ready);
    }
}

/// Move the current task's program break by `size` bytes; returns the
/// old break, or -1 when the new break would fall below the heap bottom
/// or the heap region cannot change (nothing changes then).
pub fn sys_sbrk(k: &mut Kernel, size: i32) -> (r: isize)
    requires
        old(k).wf(),
        old(k).current is Some,
    ensures
        final(k).wf(),
        final(k).current == old(k).current,
        r == -1 ==> final(k).tasks@ == old(k).tasks@ && final(k).fm == old(k).fm && final(k).ready == old(k).ready,
        ({
            let t0 = old(k).tasks@[old(k).current.unwrap() as int].unwrap();
            let nb = t0.inner.program_brk + size;
            let hv = t0.inner.heap_bottom as int / PAGE_SIZE as int;
            let ce = (nb + PAGE_SIZE - 1) / PAGE_SIZE as int;
            (r != -1) == {
                &&& nb >= t0.inner.heap_bottom
                &&& nb <= usize::MAX
                &&& if size < 0 {
                    t0.inner.memory_set.can_shrink(hv, ce)
                } else {
                    t0.inner.memory_set.can_append(old(k).fm, hv, ce)
                }
            }
        }),
        ({
            let c = old(k).current.unwrap() as int;
            let t0 = old(k).tasks@[c].unwrap();
            let t1 = final(k).tasks@[c].unwrap();
            &&& (r != -1 ==> {
                &&& r == t0.inner.program_brk
                &&& t1.inner.program_brk == t0.inner.program_brk + size
                &&& t1.inner.heap_bottom == t0.inner.heap_bottom
                &&& t1.inner.fd_table == t0.inner.fd_table
                &&& t1.inner.children == t0.inner.children
                &&& t1.inner.taskinfo == t0.inner.taskinfo
                &&& t1.inner.task_status == t0.inner.task_status
                &&& t1.inner.trap_cx == t0.inner.trap_cx
                &&& t1.inner.base_size == t0.inner.base_size
                &&& t1.inner.parent == t0.inner.parent
                &&& t1.inner.exit_code == t0.inner.exit_code
                &&& t0.inner.program_brk + size >= t0.inner.heap_bottom
                &&& t1.inner.memory_set.regions() == t0.inner.memory_set.regions().update(
                    crate::memory_set::first_start(
                        t0.inner.memory_set.areas@,
                        t0.inner.heap_bottom as int / PAGE_SIZE as int,
                    ),
                    (
                        t0.inner.heap_bottom as int / PAGE_SIZE as int,
                        (t0.inner.program_brk + size + PAGE_SIZE - 1) / PAGE_SIZE as int,
                        t0.inner.memory_set.areas@[crate::memory_set::first_start(
                            t0.inner.memory_set.areas@,
                            t0.inner.heap_bottom as int / PAGE_SIZE as int,
                        )].perm,
                    ),
                )
                &&& final(k).tasks@ == old(k).tasks@.update(c, Some(t1))
                &&& final(k).ready == old(k).ready
            })
        }),
{
    let ghost k0 = *k;
    let mut t = take_current(k);
    let ghost fm0 = k.fm;
    let ghost oc0 = t.inner.memory_set.owned();
    let res = t.change_program_brk(&mut k.fm, size);
    proof {
        sys_put_prep(k0, oc0);
        assert(t.inner.program_brk <= crate::config::MAX_VPN * PAGE_SIZE);
    }
    match res {
        Some(old_brk) => {
            proof {
                assert(old_brk == k0.tasks@[k0.current.unwrap() as int].unwrap().inner.program_brk);
                assert(old_brk <= crate::config::MAX_VPN * PAGE_SIZE);
                assert(old_brk as isize >= 0);
            }
            put_current(k, t, Ghost(fm0), Ghost(oc0));
            old_brk as isize
        },
        None => {
            put_current(k, t, Ghost(fm0), Ghost(oc0));
            proof {
                assert(k.tasks@ =~= k0.tasks@);
            }
            -1
        },
    }
}

/// Map a new framed region for the current task.  Fails (-1), changing
/// nothing, when the start is not page-aligned, the permission bits are
/// malformed, the range is empty or out of bounds, it intersects a
/// registered region, or the machine is out of frames.  Intersection is
/// judged against region bounds, not mapped pages: in particular a
/// range that would swallow the zero-length heap marker is refused so
/// the heap keeps room to grow (stricter than a page-table walk).
pub fn sys_mmap(k: &mut Kernel, start: usize, len: usize, port: usize) -> (r: isize)
    requires
        old(k).wf(),
        old(k).current is Some,
    ensures
        final(k).wf(),
        final(k).current == old(k).current,
        start % PAGE_SIZE != 0 ==> r == -1,
        (port & 0x7 == 0 || port & !0x7usize != 0) ==> r == -1,
        r == -1 ==> final(k).tasks@ == old(k).tasks@ && final(k).fm == old(k).fm && final(k).ready == old(k).ready,
        ({
            let c = old(k).current.unwrap() as int;
            let t0 = old(k).tasks@[c].unwrap();
            let t1 = final(k).tasks@[c].unwrap();
            let s = start as int / PAGE_SIZE as int;
            let e = (start + len + PAGE_SIZE - 1) / PAGE_SIZE as int;
            &&& (start % PAGE_SIZE == 0 && port & 0x7 != 0 && port & !0x7usize == 0 ==> (r
                == 0) == t0.inner.memory_set.can_insert(old(k).fm, s, e))
            &&& (r == 0 ==> {
                &&& t1.inner.memory_set.regions() == t0.inner.memory_set.regions().push(
                    (s, e, spec_mmap_perm(port)),
                )
                &&& t1.inner.fd_table == t0.inner.fd_table
                &&& t1.inner.children == t0.inner.children
                &&& t1.inner.taskinfo == t0.inner.taskinfo
                &&& t1.inner.task_status == t0.inner.task_status
                &&& t1.inner.trap_cx == t0.inner.trap_cx
                &&& t1.inner.program_brk == t0.inner.program_brk
                &&& t1.inner.heap_bottom == t0.inner.heap_bottom
                &&& t1.inner.base_size == t0.inner.base_size
                &&& t1.inner.parent == t0.inner.parent
                &&& t1.inner.exit_code == t0.inner.exit_code
                &&& final(k).tasks@ == old(k).tasks@.update(c, Some(t1))
                &&& final(k).ready == old(k).ready
            })
            &&& (r == 0 || r == -1)
        }),
{
    let ghost k0 = *k;
    if start % PAGE_SIZE != 0 {
        return -1;
    }
    if port & 0x7 == 0 || port & !0x7usize != 0 {
        return -1;
    }
    if len > usize::MAX - start {
        proof {
            let e = (start + len + PAGE_SIZE - 1) as int / PAGE_SIZE as int;
            assert(e > crate::config::TRAMPOLINE_VPN) by (nonlinear_arith)
                requires
                    start + len > usize::MAX,
                    e == (start + len + PAGE_SIZE - 1) as int / PAGE_SIZE as int,
                    PAGE_SIZE == 4096,
                    usize::MAX >= 0xffff_ffff,
                    crate::config::TRAMPOLINE_VPN == 255,
            ;
        }
        return -1;
    }
    let perm: u8 = PTE_U | (if port & 1 != 0 {
        PTE_R
    } else {
        0
    }) | (if port & 2 != 0 {
        PTE_W
    } else {
        0
    }) | (if port & 4 != 0 {
        PTE_X
    } else {
        0
    });
    proof {
        assert(perm == spec_mmap_perm(port));
    }
    let mut t = take_current(k);
    let ghost fm0 = k.fm;
    let ghost oc0 = t.inner.memory_set.owned();
    let rr = t.push_current_area(&mut k.fm, VirtAddr(start), VirtAddr(start + len), MapPermission(perm));
    proof {
        sys_put_prep(k0, oc0);
        assert forall|p: int| #[trigger] t.inner.memory_set.owned().contains(p) implies
            oc0.contains(p) || !fm0.allocated().contains(p) by {
            if rr == 0 {
            }
        }
    }
    put_current(k, t, Ghost(fm0), Ghost(oc0));
    if rr == 0 {
        0
    } else {
        proof {
            assert(k.tasks@ =~= k0.tasks@);
        }
        -1
    }
}

/// Unmap exactly a previously mapped region of the current task.  Fails
/// (-1), changing nothing, when the start is not page-aligned or no
/// region has exactly the given bounds.
pub fn sys_munmap(k: &mut Kernel, start: usize, len: usize) -> (r: isize)
    requires
        old(k).wf(),
        old(k).current is Some,
    ensures
        final(k).wf(),
        final(k).current == old(k).current,
        start % PAGE_SIZE != 0 ==> r == -1,
        r == -1 ==> final(k).tasks@ == old(k).tasks@ && final(k).fm == old(k).fm && final(k).ready == old(k).ready,
        ({
            let c = old(k).current.unwrap() as int;
            let t0 = old(k).tasks@[c].unwrap();
            let t1 = final(k).tasks@[c].unwrap();
            let s = start as int / PAGE_SIZE as int;
            let e = (start + len + PAGE_SIZE - 1) / PAGE_SIZE as int;
            &&& (start % PAGE_SIZE == 0 ==> (r == 0) == t0.inner.memory_set.has_region(s, e))
            &&& (r == 0 ==> {
                &&& exists|i: int|
                    0 <= i < t0.inner.memory_set.regions().len() && t0.inner.memory_set.regions()[i]
                        == (s, e, t0.inner.memory_set.regions()[i].2)
                        && t1.inner.memory_set.regions() == t0.inner.memory_set.regions().remove(
                        i,
                    )
                &&& t1.inner.fd_table == t0.inner.fd_table
                &&& t1.inner.children == t0.inner.children
                &&& t1.inner.taskinfo == t0.inner.taskinfo
                &&& t1.inner.task_status == t0.inner.task_status
                &&& t1.inner.trap_cx == t0.inner.trap_cx
                &&& t1.inner.program_brk == t0.inner.program_brk
                &&& t1.inner.heap_bottom == t0.inner.heap_bottom
                &&& t1.inner.base_size == t0.inner.base_size
                &&& t1.inner.parent == t0.inner.parent
                &&& t1.inner.exit_code == t0.inner.exit_code
                &&& (forall|p: int|
                    #[trigger] final(k).fm.allocated().contains(p) <==> old(
                        k,
                    ).fm.allocated().contains(p) && !(exists|v: int|
                        s <= v < e && t0.inner.memory_set.ppn_of(v) == p))
                &&& final(k).tasks@ == old(k).tasks@.update(c, Some(t1))
                &&& final(k).ready == old(k).ready
            })
            &&& (r == 0 || r == -1)
        }),
{
    let ghost k0 = *k;
    if start % PAGE_SIZE != 0 {
        return -1;
    }
    if len > usize::MAX - start {
        proof {
            let e = (start + len + PAGE_SIZE - 1) as int / PAGE_SIZE as int;
            assert(e > crate::config::TRAMPOLINE_VPN) by (nonlinear_arith)
                requires
                    start + len > usize::MAX,
                    e == (start + len + PAGE_SIZE - 1) as int / PAGE_SIZE as int,
                    PAGE_SIZE == 4096,
                    usize::MAX >= 0xffff_ffff,
                    crate::config::TRAMPOLINE_VPN == 255,
            ;
            let t0 = k0.tasks@[k0.current.unwrap() as int].unwrap();
            assert(!t0.inner.memory_set.has_region(start as int / PAGE_SIZE as int, e));
        }
        return -1;
    }
    let mut t = take_current(k);
    let ghost fm0 = k.fm;
    let ghost oc0 = t.inner.memory_set.owned();
    let rr = t.release_current_area(&mut k.fm, VirtAddr(start), VirtAddr(start + len));
    proof {
        sys_put_prep(k0, oc0);
    }
    put_current(k, t, Ghost(fm0), Ghost(oc0));
    if rr == 0 {
        proof {
            let t0 = k0.tasks@[k0.current.unwrap() as int].unwrap();
            let s = start as int / PAGE_SIZE as int;
            let e = (start + len + PAGE_SIZE - 1) as int / PAGE_SIZE as int;
            let i = choose|i: int|
                {
                    &&& 0 <= i < t0.inner.memory_set.areas@.len()
                    &&& (#[trigger] t0.inner.memory_set.areas@[i]).start_vpn == s
                    &&& t0.inner.memory_set.areas@[i].end_vpn == e
                    &&& k.tasks@[k0.current.unwrap() as int].unwrap().inner.memory_set.regions()
                        == t0.inner.memory_set.regions().remove(i)
                };
            assert(t0.inner.memory_set.regions()[i] == (
                s,
                e,
                t0.inner.memory_set.regions()[i].2,
            ));
        }
        0
    } else {
        proof {
            assert(k.tasks@ =~= k0.tasks@);
        }
        -1
    }
}

/// Byte-wise equality of two names.
fn bytes_equal(a: &Vec<u8>, b: &Vec<u8>) -> (r: bool)
    ensures
        r == (a@ == b@),
{
    if a.len() != b.len() {
        return false;
    }
    let mut i: usize = 0;
    while i < a.len()
        invariant
            i <= a@.len(),
            a@.len() == b@.len(),
            forall|j: int| 0 <= j < i ==> a@[j] == b@[j],
        decreases a@.len() - i,
    {
        if a[i] != b[i] {
            return false;
        }
        i += 1;
    }
    proof {
        assert(a@ =~= b@);
    }
    true
}

/// Rewrite one task's parent back-reference (used when exiting tasks
/// hand their children to the initial process).
fn set_parent_field(k: &mut Kernel, q: usize, np: usize)
    requires
        old(k).wf(),
        q < old(k).tasks@.len(),
    ensures
        final(k).wf(),
        final(k).fm == old(k).fm,
        final(k).current == old(k).current,
        final(k).ready == old(k).ready,
        final(k).recycled_pids == old(k).recycled_pids,
        final(k).tasks@.len() == old(k).tasks@.len(),
        old(k).tasks@[q as int] is None ==> final(k).tasks@ == old(k).tasks@,
        old(k).tasks@[q as int] is Some ==> {
            let t0 = old(k).tasks@[q as int].unwrap();
            final(k).tasks@ == old(k).tasks@.update(
                q as int,
                Some(
                    TaskControlBlock {
                        inner: crate::task::TaskControlBlockInner {
                            parent: Some(np),
                            ..t0.inner
                        },
                        ..t0
                    },
                ),
            )
        },
        final(k).files == old(k).files,
        final(k).dir == old(k).dir,
        final(k).open_files == old(k).open_files,
        final(k).console_out == old(k).console_out,
        final(k).apps == old(k).apps,
        final(k).time_us == old(k).time_us,
{
    let ghost pre = *k;
    let mut slot: Option<TaskControlBlock> = None;
    let slot_ref = &mut k.tasks[q];
    core::mem::swap(slot_ref, &mut slot);
    match slot {
        Some(mut t) => {
            t.inner.parent = Some(np);
            k.tasks.set(q, Some(t));
            proof {
                assert(k.tasks@ =~= pre.tasks@.update(q as int, k.tasks@[q as int]));
                lemma_wf_after_field_update(pre, *k, q as int);
            }
        },
        None => {
            k.tasks.set(q, None);
            proof {
                assert(k.tasks@ =~= pre.tasks@);
                assert(k.tasks@ == pre.tasks@);
            }
        },
    }
}

/// Replacing one live task by a task equal in pid, kernel stack, space,
/// status and file table preserves kernel well-formedness.
proof fn lemma_wf_after_field_update(k0: Kernel, k1: Kernel, q: int)
    requires
        k0.wf(),
        0 <= q < k0.tasks@.len(),
        k0.tasks@[q] is Some,
        k1.tasks@.len() == k0.tasks@.len(),
        k1.tasks@ == k0.tasks@.update(q, k1.tasks@[q]),
        k1.tasks@[q] is Some,
        k1.tasks@[q].unwrap().pid == k0.tasks@[q].unwrap().pid,
        k1.tasks@[q].unwrap().kernel_stack == k0.tasks@[q].unwrap().kernel_stack,
        k1.tasks@[q].unwrap().inner.memory_set == k0.tasks@[q].unwrap().inner.memory_set,
        k1.tasks@[q].unwrap().inner.task_status == k0.tasks@[q].unwrap().inner.task_status,
        k1.tasks@[q].unwrap().inner.fd_table == k0.tasks@[q].unwrap().inner.fd_table,
        k1.tasks@[q].unwrap().inner.taskinfo == k0.tasks@[q].unwrap().inner.taskinfo,
        k1.tasks@[q].unwrap().inner.heap_bottom == k0.tasks@[q].unwrap().inner.heap_bottom,
        k1.tasks@[q].unwrap().inner.program_brk == k0.tasks@[q].unwrap().inner.program_brk,
        k1.fm == k0.fm,
        k1.current == k0.current,
        k1.ready@ == k0.ready@,
        k1.recycled_pids@ == k0.recycled_pids@,
        k1.open_files@ == k0.open_files@,
        k1.dir@ == k0.dir@,
        k1.files@ == k0.files@,
    ensures
        k1.wf(),
{
    assert forall|p: int|
        0 <= p < k1.tasks@.len() && k1.tasks@[p] is Some implies {
        &&& (#[trigger] k1.tasks@[p]).unwrap().pid.0 == p
        &&& k1.tasks@[p].unwrap().kernel_stack.0 == p
        &&& k1.tasks@[p].unwrap().wf_in(k1.fm)
    } by {
        assert(k0.tasks@[p] is Some);
        assert(k0.tasks@[p].unwrap().wf_in(k0.fm));
    }
    assert forall|p: int, q2: int, x: int|
        0 <= p < k1.tasks@.len() && 0 <= q2 < k1.tasks@.len() && p != q2 && k1.tasks@[p]
            is Some && k1.tasks@[q2] is Some && (
    #[trigger] k1.tasks@[p].unwrap().inner.memory_set.owned().contains(x)) implies !(
    #[trigger] k1.tasks@[q2].unwrap().inner.memory_set.owned().contains(x)) by {
        assert(k0.tasks@[p].unwrap().inner.memory_set.owned().contains(x));
        assert(!(k0.tasks@[q2].unwrap().inner.memory_set.owned().contains(x)));
    }
}

/// Exit the current task: it becomes a Zombie holding `exit_code`, its
/// children are handed to the initial process (pid 0), its address
/// space's frames go back to the allocator, and the next Ready task is
/// dispatched.  The caller must not run the exited task again.
pub fn sys_exit(k: &mut Kernel, exit_code: i32) -> (r: isize)
    requires
        old(k).wf(),
        old(k).current is Some,
        old(k).current.unwrap() != 0,
        old(k).tasks@[0] is Some,
    ensures
        final(k).wf(),
        final(k).tasks@.len() == old(k).tasks@.len(),
        ({
            let c = old(k).current.unwrap() as int;
            let t0 = old(k).tasks@[c].unwrap();
            let kids = t0.inner.children@;
            &&& final(k).tasks@[c] is Some
            &&& final(k).tasks@[c].unwrap().inner.task_status == TaskStatus::Zombie
            &&& final(k).tasks@[c].unwrap().inner.exit_code == exit_code
            &&& final(k).tasks@[c].unwrap().inner.children@.len() == 0
            &&& final(k).tasks@[c].unwrap().inner.memory_set.areas@.len() == 0
            &&& (forall|j: int|
                0 <= j < kids.len() && (#[trigger] kids[j]) < old(k).tasks@.len() && kids[j]
                    != c && final(k).tasks@[kids[j] as int] is Some ==> final(k).tasks@[kids[j] as int].unwrap().inner.parent
                    == Some(0usize))
            &&& (forall|p: int|
                #[trigger] final(k).fm.allocated().contains(p) <==> (old(
                    k,
                ).fm.allocated().contains(p) && !t0.inner.memory_set.owned().contains(p)) || p
                    == final(k).tasks@[c].unwrap().inner.memory_set.pt.root_ppn as int)
            &&& (old(k).ready@.len() > 0 ==> final(k).current is Some)
        }),
        r == 0,
{
    let ghost k0 = *k;
    let c = match k.current {
        Some(c) => c,
        None => unreached(),
    };
    let mut t = take_current(k);
    let ghost fm0 = k.fm;
    let ghost oc0 = t.inner.memory_set.owned();
    t.inner.task_status = TaskStatus::Zombie;
    t.inner.exit_code = exit_code;
    let mut kids: Vec<usize> = Vec::new();
    core::mem::swap(&mut t.inner.children, &mut kids);
    t.inner.fd_table.clear();
    t.inner.memory_set.release(&mut k.fm);
    // the released space is replaced by an empty one so the zombie owns
    // no frame while it waits to be collected
    proof {
        // the released root frame alone guarantees a free frame
        let rp = k0.tasks@[c as int].unwrap().inner.memory_set.pt.root_ppn as int;
        assert(fm0.allocated().contains(rp));
        assert(oc0.contains(rp));
        assert(!k.fm.allocated().contains(rp));
        assert(k.fm.is_free(rp));
        let iw = choose|iw: int| 0 <= iw < k.fm.free@.len() && k.fm.free@[iw] as int == rp;
        assert(k.fm.free@.len() >= 1);
        assert(k.fm.avail() > 0);
    }
    let empty_ms = match MemorySet::new_bare(&mut k.fm) {
        Some(m) => m,
        None => unreached(),
    };
    t.inner.memory_set = empty_ms;
    proof {
        sys_put_prep(k0, oc0);
    }
    // the zombie is parked in its slot, not Running and not Ready; the
    // scheduler will never dispatch it again
    let cpid = t.pid.0;
    let ghost zroot = t.inner.memory_set.pt.root_ppn;
    k.tasks.set(cpid, Some(t));
    k.current = None;
    proof {
        assert(k.tasks@ =~= k0.tasks@.update(c as int, k.tasks@[c as int]));
        lemma_exit_wf(k0, *k, fm0, oc0);
        assert forall|p: int| #[trigger] k.fm.allocated().contains(p) <==> (
        k0.fm.allocated().contains(p) && !oc0.contains(p)) || p == zroot as int by {}
    }
    let ghost kfm = k.fm;
    // hand the children to the initial process
    let mut i: usize = 0;
    while i < kids.len()
        invariant
            k.wf(),
            k.current is None,
            k.fm == kfm,
            k.ready@ == k0.ready@,
            k.tasks@.len() == k0.tasks@.len(),
            cpid == c < k.tasks@.len(),
            k.tasks@[c as int] is Some,
            k.tasks@[c as int].unwrap().inner.task_status == TaskStatus::Zombie,
            k.tasks@[c as int].unwrap().inner.exit_code == exit_code,
            k.tasks@[c as int].unwrap().inner.children@.len() == 0,
            k.tasks@[c as int].unwrap().inner.memory_set.areas@.len() == 0,
            k.tasks@[c as int].unwrap().inner.memory_set.pt.root_ppn == zroot,
            forall|l: int|
                0 <= l < i && (#[trigger] kids@[l]) < k.tasks@.len() && kids@[l] != cpid
                    && k.tasks@[kids@[l] as int] is Some ==> k.tasks@[kids@[l] as int].unwrap().inner.parent
                    == Some(0usize),
        decreases kids@.len() - i,
    {
        let q = kids[i];
        if q < k.tasks.len() && q != cpid {
            set_parent_field(k, q, 0);
        }
        i += 1;
    }
    let ghost krn = *k;
    k.run_next();
    proof {
        if krn.ready@.len() > 0 {
            let c2 = k.current.unwrap() as int;
            let iw = choose|iw: int|
                0 <= iw < krn.ready@.len() && krn.ready@[iw] == c2 && k.ready@
                    == krn.ready@.remove(iw);
            assert(krn.tasks@[c2].unwrap().inner.task_status == TaskStatus::Ready);
            assert(c2 != c as int);
            assert forall|l: int|
                0 <= l < kids@.len() && (#[trigger] kids@[l]) < k.tasks@.len() && kids@[l]
                    != cpid && k.tasks@[kids@[l] as int] is Some implies k.tasks@[kids@[l] as int].unwrap().inner.parent
                == Some(0usize) by {
                if kids@[l] as int != c2 {
                    assert(k.tasks@[kids@[l] as int] == krn.tasks@[kids@[l] as int]);
                }
            }
        }
    }
    0
}

/// After an exit: the zombie keeps only a bare space with fresh root,
/// everything else it owned went back to the pool, so the whole kernel
/// stays well formed with no task running.
proof fn lemma_exit_wf(k0: Kernel, k1: Kernel, fm0: crate::frame::FrameManager, oc0: Set<int>)
    requires
        k0.wf(),
        k0.current is Some,
        oc0 == k0.tasks@[k0.current.unwrap() as int].unwrap().inner.memory_set.owned(),
        k1.tasks@.len() == k0.tasks@.len(),
        k1.tasks@ == k0.tasks@.update(k0.current.unwrap() as int, k1.tasks@[k0.current.unwrap() as int]),
        k1.tasks@[k0.current.unwrap() as int] is Some,
        ({
            let t = k1.tasks@[k0.current.unwrap() as int].unwrap();
            &&& t.pid == k0.tasks@[k0.current.unwrap() as int].unwrap().pid
            &&& t.kernel_stack == k0.tasks@[k0.current.unwrap() as int].unwrap().kernel_stack
            &&& t.wf_in(k1.fm)
            &&& t.inner.task_status == TaskStatus::Zombie
            &&& forall|p: int|
                #[trigger] t.inner.memory_set.owned().contains(p) ==> oc0.contains(p)
                    || !fm0.allocated().contains(p)
        }),
        k1.fm.wf(),
        fm0 == k0.fm,
        forall|p: int|
            fm0.allocated().contains(p) && !oc0.contains(p) ==> #[trigger] k1.fm.allocated().contains(p),
        k1.current is None,
        k1.ready@ == k0.ready@,
        k1.recycled_pids@ == k0.recycled_pids@,
        k1.open_files@ == k0.open_files@,
        k1.dir@ == k0.dir@,
        k1.files@ == k0.files@,
        forall|j: int|
            0 <= j < k1.tasks@[k0.current.unwrap() as int].unwrap().inner.fd_table@.len()
                ==> ((#[trigger] k1.tasks@[k0.current.unwrap() as int].unwrap().inner.fd_table@[j]) matches Some(
                FileHandle::File(kk),
            ) ==> kk < k1.open_files@.len()),
    ensures
        k1.wf(),
{
    let c = k0.current.unwrap() as int;
    assert forall|p: int|
        0 <= p < k1.tasks@.len() && k1.tasks@[p] is Some implies {
        &&& (#[trigger] k1.tasks@[p]).unwrap().pid.0 == p
        &&& k1.tasks@[p].unwrap().kernel_stack.0 == p
        &&& k1.tasks@[p].unwrap().wf_in(k1.fm)
    } by {
        if p != c {
            assert(k0.tasks@[p] is Some);
            sys_put_prep(k0, oc0);
            Kernel::lemma_bystander_preserved(
                k0.tasks@[p].unwrap(),
                fm0,
                k1.fm,
                oc0,
                k1.tasks@[c].unwrap().inner.memory_set.owned(),
            );
        }
    }
    assert forall|p: int, q2: int, x: int|
        0 <= p < k1.tasks@.len() && 0 <= q2 < k1.tasks@.len() && p != q2 && k1.tasks@[p]
            is Some && k1.tasks@[q2] is Some && (
    #[trigger] k1.tasks@[p].unwrap().inner.memory_set.owned().contains(x)) implies !(
    #[trigger] k1.tasks@[q2].unwrap().inner.memory_set.owned().contains(x)) by {
        sys_put_prep(k0, oc0);
        if p == c {
            Kernel::lemma_bystander_preserved(
                k0.tasks@[q2].unwrap(),
                fm0,
                k1.fm,
                oc0,
                k1.tasks@[c].unwrap().inner.memory_set.owned(),
            );
        } else if q2 == c {
            Kernel::lemma_bystander_preserved(
                k0.tasks@[p].unwrap(),
                fm0,
                k1.fm,
                oc0,
                k1.tasks@[c].unwrap().inner.memory_set.owned(),
            );
        }
    }
    assert forall|i: int| 0 <= i < k1.ready@.len() implies (#[trigger] k1.ready@[i])
        < k1.tasks@.len() && k1.tasks@[k1.ready@[i] as int] is Some && k1.tasks@[k1.ready@[i] as int].unwrap().inner.task_status
        == TaskStatus::Ready by {
        assert(k0.ready@[i] == k1.ready@[i]);
        assert(k0.tasks@[k0.ready@[i] as int].unwrap().inner.task_status
            == TaskStatus::Ready);
        assert(k0.ready@[i] as int != c);
    }
}

/// Install a freshly built child task (whose frames nobody owned before
/// the build began) into its empty slot and queue it Ready.
#[verifier::rlimit(100)]
fn install_child(k: &mut Kernel, child: TaskControlBlock, Ghost(fm0): Ghost<
    crate::frame::FrameManager,
>)
    requires
        old(k).wf(),
        child.pid.0 == child.kernel_stack.0,
        child.pid.0 < old(k).tasks@.len(),
        old(k).tasks@[child.pid.0 as int] is None,
        child.wf_in(old(k).fm),
        child.inner.task_status == TaskStatus::Ready,
        old(k).ready@.len() < usize::MAX,
        forall|i: int|
            0 <= i < old(k).recycled_pids@.len() ==> (#[trigger] old(k).recycled_pids@[i])
                != child.pid.0,
        forall|p: int|
            #[trigger] child.inner.memory_set.owned().contains(p) ==> !fm0.allocated().contains(
                p,
            ),
        forall|p: int|
            0 <= p < old(k).tasks@.len() && old(k).tasks@[p] is Some ==> (
            #[trigger] old(k).tasks@[p]).unwrap().wf_in(fm0),
        forall|j: int|
            0 <= j < child.inner.fd_table@.len() ==> ((
            #[trigger] child.inner.fd_table@[j]) matches Some(FileHandle::File(kk)) ==> kk
                < old(k).open_files@.len()),
    ensures
        final(k).wf(),
        final(k).tasks@ == old(k).tasks@.update(child.pid.0 as int, Some(child)),
        final(k).ready@ == old(k).ready@.push(child.pid.0),
        final(k).fm == old(k).fm,
        final(k).current == old(k).current,
        final(k).recycled_pids == old(k).recycled_pids,
        final(k).files == old(k).files,
        final(k).open_files == old(k).open_files,
        final(k).console_out == old(k).console_out,
        final(k).time_us == old(k).time_us,
{
    let d = child.pid.0;
    k.install_task(child);
    proof {
        let post = *k;
        assert forall|p: int|
            0 <= p < post.tasks@.len() && post.tasks@[p] is Some implies {
            &&& (#[trigger] post.tasks@[p]).unwrap().pid.0 == p
            &&& post.tasks@[p].unwrap().kernel_stack.0 == p
            &&& post.tasks@[p].unwrap().wf_in(post.fm)
        } by {}
        assert forall|p: int, q2: int, x: int|
            0 <= p < post.tasks@.len() && 0 <= q2 < post.tasks@.len() && p != q2
                && post.tasks@[p] is Some && post.tasks@[q2] is Some && (
        #[trigger] post.tasks@[p].unwrap().inner.memory_set.owned().contains(x)) implies !(
        #[trigger] post.tasks@[q2].unwrap().inner.memory_set.owned().contains(x)) by {
            if p == d as int {
                crate::memory_set::lemma_owned_allocated(
                    old(k).tasks@[q2].unwrap().inner.memory_set,
                    fm0,
                );
            } else if q2 == d as int {
                crate::memory_set::lemma_owned_allocated(
                    old(k).tasks@[p].unwrap().inner.memory_set,
                    fm0,
                );
            }
        }
        assert forall|i: int| 0 <= i < post.ready@.len() implies (#[trigger] post.ready@[i])
            != d by {
            assert(old(k).tasks@[post.ready@[i] as int] is Some);
        }
    }
    k.add_task(d);
}

/// Fork the current task: a child with a byte-identical copy of the
/// address space, the same file table, fresh scheduling metadata, and a
/// trap frame whose return value is 0, queued Ready.  Returns the child
/// pid to the parent, or -1 when pids or frames run out (nothing
/// changes then beyond possibly growing the table).
pub fn sys_fork(k: &mut Kernel) -> (r: isize)
    requires
        old(k).wf(),
        old(k).current is Some,
        old(k).ready@.len() < usize::MAX,
        old(k).task_at(old(k).current.unwrap() as int).inner.children@.len() < usize::MAX,
    ensures
        final(k).wf(),
        final(k).current == old(k).current,
        (old(k).recycled_pids@.len() > 0 || old(k).tasks@.len() < 0xfffd) && old(
            k,
        ).fm.avail() >= 1 + old(k).tasks@[old(k).current.unwrap() as int].unwrap().inner.memory_set.pages()
            ==> r >= 0,
        r == -1 ==> {
            &&& final(k).ready == old(k).ready
            &&& forall|q: int|
                0 <= q < old(k).tasks@.len() ==> final(k).tasks@[q] == old(k).tasks@[q]
        },
        r >= 0 ==> {
            let c = old(k).current.unwrap() as int;
            let d = r as int;
            let t0 = old(k).tasks@[c].unwrap();
            let t1 = final(k).tasks@[c].unwrap();
            let ch = final(k).tasks@[d].unwrap();
            &&& final(k).tasks@[d] is Some
            &&& d != c
            &&& ch.pid.0 == d
            &&& t1.inner.memory_set == t0.inner.memory_set
            &&& t1.inner.fd_table == t0.inner.fd_table
            &&& t1.inner.program_brk == t0.inner.program_brk
            &&& t1.inner.children@ == t0.inner.children@.push(r as usize)
            &&& t1.inner.trap_cx == t0.inner.trap_cx
            &&& ch.inner.parent == Some(c as usize)
            &&& ch.inner.task_status == TaskStatus::Ready
            &&& ch.inner.fd_table@ == t0.inner.fd_table@
            &&& ch.inner.memory_set.regions() == t0.inner.memory_set.regions()
            &&& ch.inner.trap_cx.a0 == 0
            &&& ch.inner.taskinfo.stride.0 == 0
            &&& final(k).ready@ == old(k).ready@.push(r as usize)
            &&& forall|v: int|
                0 <= v < crate::config::MAX_VPN && v != crate::config::TRAMPOLINE_VPN && (
                #[trigger] t0.inner.memory_set.translated(v)) is Some ==> final(k).fm.frame(
                    ch.inner.memory_set.ppn_of(v),
                ) == old(k).fm.frame(t0.inner.memory_set.ppn_of(v))
        },
{
    let ghost kpre = *k;
    let child_pid = match k.pid_alloc() {
        Some(p) => p,
        None => {
            return -1;
        },
    };
    let ghost k0 = *k;
    let c = match k.current {
        Some(c) => c,
        None => unreached(),
    };
    let mut t = take_current(k);
    let ghost fm0 = k.fm;
    let ghost oc0 = t.inner.memory_set.owned();
    let child = t.fork(&mut k.fm, child_pid, child_pid);
    proof {
        sys_put_prep(k0, oc0);
    }
    match child {
        Some(mut ch) => {
            ch.inner.trap_cx.a0 = 0;
            put_current(k, t, Ghost(fm0), Ghost(oc0));
            proof {
                assert forall|p: int|
                    0 <= p < k.tasks@.len() && k.tasks@[p] is Some implies (
                #[trigger] k.tasks@[p]).unwrap().wf_in(fm0) by {
                    if p != c as int {
                        assert(k0.tasks@[p] is Some);
                    }
                }
            }
            install_child(k, ch, Ghost(fm0));
            child_pid as isize
        },
        None => {
            put_current(k, t, Ghost(fm0), Ghost(oc0));
            -1
        },
    }
}

/// Wait for a child: `pid == -1` matches any child.  Reports -1 when no
/// child matches the filter (or the out-pointer does not resolve), -2
/// when a matching child exists but none has exited, and otherwise
/// collects the first matching Zombie in child-list order: its exit
/// code is written through `exit_code_ptr` (little-endian), its slot
/// and pid are reclaimed, and its pid is returned.
#[verifier::rlimit(100)]
pub fn sys_waitpid(k: &mut Kernel, pid: isize, exit_code_ptr: usize) -> (r: isize)
    requires
        old(k).wf(),
        old(k).current is Some,
        exit_code_ptr + 4 <= usize::MAX,
    ensures
        final(k).wf(),
        final(k).current == old(k).current,
        r == -2 ==> *final(k) == *old(k),
        r == -1 ==> {
            &&& final(k).tasks@ == old(k).tasks@
            &&& final(k).ready == old(k).ready
            &&& final(k).recycled_pids == old(k).recycled_pids
            &&& final(k).fm.mem@ == old(k).fm.mem@
            &&& final(k).fm.free@ == old(k).fm.free@
        },
        ({
            let c = old(k).current.unwrap() as int;
            let t0 = old(k).tasks@[c].unwrap();
            let kids = t0.inner.children@;
            &&& (((exists|j: int|
                0 <= j < kids.len() && child_matches(kpre_at(*old(k), kids[j] as int), pid,
                kids[j] as int) && kpre_at(
                    *old(k),
                    kids[j] as int,
                ).unwrap().inner.task_status == TaskStatus::Zombie) && range_ok(
                t0.inner.memory_set,
                exit_code_ptr as int,
                4,
            )) ==> r >= 0)
            &&& (((exists|j: int|
                0 <= j < kids.len() && child_matches(kpre_at(*old(k), kids[j] as int), pid,
                kids[j] as int)) && (forall|j: int|
                0 <= j < kids.len() && child_matches(kpre_at(*old(k), kids[j] as int), pid,
                kids[j] as int) ==> kpre_at(
                    *old(k),
                    kids[j] as int,
                ).unwrap().inner.task_status != TaskStatus::Zombie)) ==> r == -2)
            &&& ((forall|j: int|
                0 <= j < kids.len() ==> !child_matches(kpre_at(*old(k), kids[j] as int), pid,
                kids[j] as int)) ==> r == -1)
            &&& (r == -2 ==> exists|j: int|
                0 <= j < kids.len() && child_matches(
                    kpre_at(*old(k), kids[j] as int),
                    pid,
                    kids[j] as int,
                ))
            &&& (r == -2 ==> forall|j: int|
                0 <= j < kids.len() && child_matches(kpre_at(*old(k), kids[j] as int), pid,
                kids[j] as int) ==> kpre_at(*old(k), kids[j] as int).unwrap().inner.task_status
                    != TaskStatus::Zombie)
            &&& (r >= 0 ==> {
                let d = r as int;
                &&& exists|j: int|
                    {
                        &&& 0 <= j < kids.len()
                        &&& kids[j] == d
                        &&& final(k).tasks@[c].unwrap().inner.children@ == kids.remove(j)
                    }
                &&& final(k).tasks@.len() == old(k).tasks@.len()
                &&& (forall|q: int|
                    0 <= q < old(k).tasks@.len() && q != c && q != d ==> final(k).tasks@[q]
                        == old(k).tasks@[q])
                &&& final(k).ready == old(k).ready
                &&& final(k).recycled_pids@ == old(k).recycled_pids@.push(r as usize)
                &&& old(k).tasks@[d] is Some
                &&& old(k).tasks@[d].unwrap().inner.task_status == TaskStatus::Zombie
                &&& final(k).tasks@[d] is None
                &&& forall|j: int|
                    #![trigger vstd::bytes::spec_u32_to_le_bytes(old(k).tasks@[d].unwrap().inner.exit_code as u32)[j]]
                    0 <= j < 4 ==> user_byte(
                        final(k).tasks@[c].unwrap().inner.memory_set,
                        final(k).fm,
                        exit_code_ptr + j,
                    ) == vstd::bytes::spec_u32_to_le_bytes(
                        old(k).tasks@[d].unwrap().inner.exit_code as u32,
                    )[j]
            })
        }),
{
    let ghost kpre = *k;
    let c = match k.current {
        Some(c) => c,
        None => unreached(),
    };
    let n = match &k.tasks[c] {
        Some(t) => t.inner.children.len(),
        None => unreached(),
    };
    let mut any_match = false;
    let mut zidx: usize = n;
    let mut zpid: usize = 0;
    let mut j: usize = 0;
    while j < n
        invariant
            *k == kpre,
            k.wf(),
            k.current == Some(c),
            0 <= c < k.tasks@.len(),
            k.tasks@[c as int] is Some,
            n == k.tasks@[c as int].unwrap().inner.children@.len(),
            any_match == exists|l: int|
                0 <= l < j && child_matches(
                    kpre_at(*k, k.tasks@[c as int].unwrap().inner.children@[l] as int),
                    pid,
                    k.tasks@[c as int].unwrap().inner.children@[l] as int,
                ),
            zidx == n || {
                let kids = k.tasks@[c as int].unwrap().inner.children@;
                &&& zidx < j
                &&& kids[zidx as int] == zpid
                &&& child_matches(kpre_at(*k, zpid as int), pid, zpid as int)
                &&& kpre_at(*k, zpid as int).unwrap().inner.task_status == TaskStatus::Zombie
                &&& forall|l: int|
                    0 <= l < zidx ==> !(child_matches(
                        kpre_at(*k, kids[l] as int),
                        pid,
                        kids[l] as int,
                    ) && kpre_at(*k, kids[l] as int).unwrap().inner.task_status
                        == TaskStatus::Zombie)
            },
            zidx == n ==> forall|l: int|
                0 <= l < j ==> !(child_matches(
                    kpre_at(*k, k.tasks@[c as int].unwrap().inner.children@[l] as int),
                    pid,
                    k.tasks@[c as int].unwrap().inner.children@[l] as int,
                ) && kpre_at(
                    *k,
                    k.tasks@[c as int].unwrap().inner.children@[l] as int,
                ).unwrap().inner.task_status == TaskStatus::Zombie),
            j <= n,
        decreases n - j,
    {
        let q = match &k.tasks[c] {
            Some(t) => {
                if j < t.inner.children.len() {
                    t.inner.children[j]
                } else {
                    unreached()
                }
            },
            None => unreached(),
        };
        let alive = q < k.tasks.len();
        let matches_filter = if alive {
            match &k.tasks[q] {
                Some(ct) => pid == -1 || (pid >= 0 && q == pid as usize),
                None => false,
            }
        } else {
            false
        };
        if matches_filter {
            any_match = true;
            if zidx == n {
                let zomb = match &k.tasks[q] {
                    Some(ct) => ct.inner.is_zombie(),
                    None => unreached(),
                };
                if zomb {
                    zidx = j;
                    zpid = q;
                }
            }
        }
        j += 1;
    }
    if !any_match {
        return -1;
    }
    if zidx == n {
        return -2;
    }
    // read the zombie's exit code, write it through the user pointer
    // before any state changes, then detach and reclaim the child
    let code = match &k.tasks[zpid] {
        Some(ct) => ct.inner.exit_code,
        None => unreached(),
    };
    let bytes = vstd::bytes::u32_to_le_bytes(code as u32);
    let ok = match &k.tasks[c] {
        Some(t) => copy_out(&t.inner.memory_set, &mut k.fm, exit_code_ptr, &bytes),
        None => unreached(),
    };
    proof {
        lemma_wf_after_userwrite(kpre, *k, c as int);
    }
    if !ok {
        return -1;
    }
    let ghost kmid = *k;
    let mut t = take_current(k);
    let ghost fm0 = k.fm;
    let ghost oc0 = t.inner.memory_set.owned();
    t.inner.children.remove(zidx);
    proof {
        sys_put_prep(kmid, oc0);
    }
    put_current(k, t, Ghost(fm0), Ghost(oc0));
    // drop the child's slot and recycle its pid
    let ghost kdrop = *k;
    let mut gone: Option<TaskControlBlock> = None;
    let slot_ref = &mut k.tasks[zpid];
    core::mem::swap(slot_ref, &mut gone);
    k.recycled_pids.push(zpid);
    proof {
        assert(k.tasks@ =~= kdrop.tasks@.update(zpid as int, None));
        lemma_wf_after_drop(kdrop, *k, zpid as int);
        assert(kpre.tasks@[c as int].unwrap().inner.children@[zidx as int] == zpid);
    }
    zpid as isize
}

/// The task `d` is a live task that passes the `waitpid` pid filter.
pub open spec fn child_matches(slot: Option<TaskControlBlock>, pid: isize, d: int) -> bool {
    slot is Some && (pid == -1 || (pid >= 0 && d == pid))
}

/// The slot of task `d`, or None when `d` is out of range.
pub open spec fn kpre_at(k: Kernel, d: int) -> Option<TaskControlBlock> {
    if 0 <= d < k.tasks@.len() {
        k.tasks@[d]
    } else {
        None
    }
}

/// Writing through the current task's own frames preserves kernel
/// well-formedness: ownership and the free list do not move.
proof fn lemma_wf_after_userwrite(k0: Kernel, k1: Kernel, c: int)
    requires
        k0.wf(),
        k1.tasks@ == k0.tasks@,
        k1.fm.wf(),
        k1.fm.allocated() == k0.fm.allocated(),
        k1.fm.mem@.len() == k0.fm.mem@.len(),
        k1.current == k0.current,
        k1.ready@ == k0.ready@,
        k1.recycled_pids@ == k0.recycled_pids@,
        k1.open_files@ == k0.open_files@,
        k1.dir@ == k0.dir@,
        k1.files@ == k0.files@,
    ensures
        k1.wf(),
{
    assert forall|p: int|
        0 <= p < k1.tasks@.len() && k1.tasks@[p] is Some implies {
        &&& (#[trigger] k1.tasks@[p]).unwrap().pid.0 == p
        &&& k1.tasks@[p].unwrap().kernel_stack.0 == p
        &&& k1.tasks@[p].unwrap().wf_in(k1.fm)
    } by {
        assert(k0.tasks@[p].unwrap().wf_in(k0.fm));
        let ms = k1.tasks@[p].unwrap().inner.memory_set;
        assert forall|i: int, kk: int|
            0 <= i < ms.areas@.len() && 0 <= kk
                < ms.areas@[i].frames@.len() implies k1.fm.allocated().contains(
            #[trigger] ms.areas@[i].frames@[kk] as int,
        ) by {
            assert(k0.fm.allocated().contains(ms.areas@[i].frames@[kk] as int));
        }
        assert(k0.fm.allocated().contains(ms.pt.root_ppn as int));
    }
}

/// Removing a Zombie task's slot preserves kernel well-formedness.
proof fn lemma_wf_after_drop(k0: Kernel, k1: Kernel, d: int)
    requires
        k0.wf(),
        0 <= d < k0.tasks@.len(),
        k0.tasks@[d] is Some,
        k0.tasks@[d].unwrap().inner.task_status == TaskStatus::Zombie,
        k0.current matches Some(cc) ==> cc as int != d,
        k1.tasks@ == k0.tasks@.update(d, None),
        k1.fm == k0.fm,
        k1.current == k0.current,
        k1.ready@ == k0.ready@,
        k1.recycled_pids@ == k0.recycled_pids@.push(d as usize),
        k1.open_files@ == k0.open_files@,
        k1.dir@ == k0.dir@,
        k1.files@ == k0.files@,
    ensures
        k1.wf(),
{
    assert forall|i: int| 0 <= i < k1.ready@.len() implies (#[trigger] k1.ready@[i])
        < k1.tasks@.len() && k1.tasks@[k1.ready@[i] as int] is Some && k1.tasks@[k1.ready@[i] as int].unwrap().inner.task_status
        == TaskStatus::Ready by {
        assert(k0.tasks@[k0.ready@[i] as int].unwrap().inner.task_status
            == TaskStatus::Ready);
        assert(k0.ready@[i] as int != d);
    }
    assert forall|i: int| 0 <= i < k1.recycled_pids@.len() implies (
    #[trigger] k1.recycled_pids@[i]) < k1.tasks@.len() && k1.tasks@[k1.recycled_pids@[i] as int]
        is None by {
        if i < k0.recycled_pids@.len() {
            assert(k0.recycled_pids@[i] == k1.recycled_pids@[i]);
        }
    }
    assert forall|i: int, j: int|
        0 <= i < j < k1.recycled_pids@.len() implies k1.recycled_pids@[i]
        != k1.recycled_pids@[j] by {
        if j == k1.recycled_pids@.len() - 1 {
            assert(k0.tasks@[k0.recycled_pids@[i] as int] is None);
        }
    }
}

/// Look up a program image by name.
fn find_app(k: &Kernel, name: &Vec<u8>) -> (r: Option<usize>)
    ensures
        r is Some ==> r.unwrap() < k.apps@.len() && k.apps@[r.unwrap() as int].name@ == name@
            && (forall|l: int| 0 <= l < r.unwrap() ==> (#[trigger] k.apps@[l]).name@ != name@),
        r is None ==> forall|i: int|
            0 <= i < k.apps@.len() ==> (#[trigger] k.apps@[i]).name@ != name@,
        (r is Some) == exists|i: int|
            0 <= i < k.apps@.len() && (#[trigger] k.apps@[i]).name@ == name@,
{
    let mut i: usize = 0;
    while i < k.apps.len()
        invariant
            i <= k.apps@.len(),
            forall|l: int| 0 <= l < i ==> (#[trigger] k.apps@[l]).name@ != name@,
        decreases k.apps@.len() - i,
    {
        if bytes_equal(&k.apps[i].name, name) {
            return Some(i);
        }
        i += 1;
    }
    None
}

/// Replace the current task's program with the image named by the user
/// string at `path`.  Returns 0, or -1 when the string does not
/// resolve, no image has that name, or the machine is exhausted; the
/// parent's and every other task's state is untouched either way.
pub fn sys_exec(k: &mut Kernel, path: usize) -> (r: isize)
    requires
        old(k).wf(),
        old(k).current is Some,
        path + STR_MAX_LEN + 1 <= usize::MAX,
    ensures
        final(k).wf(),
        final(k).current == old(k).current,
        r == 0 || r == -1,
        ({
            let c = old(k).current.unwrap() as int;
            &&& (forall|q: int|
                0 <= q < old(k).tasks@.len() && q != c ==> final(k).tasks@[q] == old(
                    k,
                ).tasks@[q])
            &&& final(k).tasks@.len() == old(k).tasks@.len()
            &&& (r == -1 ==> final(k).tasks@ == old(k).tasks@)
            &&& (r == 0 ==> {
                let t0 = old(k).tasks@[c].unwrap();
                let t1 = final(k).tasks@[c].unwrap();
                let nb = crate::uaccess::cstr_bytes(
                    t0.inner.memory_set,
                    old(k).fm,
                    path as int,
                );
                &&& t1.pid == t0.pid
                &&& t1.inner.children == t0.inner.children
                &&& t1.inner.fd_table == t0.inner.fd_table
                &&& t1.inner.parent == t0.inner.parent
                &&& t1.inner.trap_cx.a0 == 0
                &&& t1.inner.heap_bottom == t1.inner.program_brk
                &&& exists|i: int|
                    0 <= i < old(k).apps@.len() && (#[trigger] old(k).apps@[i]).name@ == nb
                        && t1.inner.trap_cx.entry == old(k).apps@[i].image.entry
            })
            &&& (!crate::uaccess::has_cstr(
                old(k).tasks@[c].unwrap().inner.memory_set,
                old(k).fm,
                path as int,
            ) ==> r == -1)
            &&& ((crate::uaccess::has_cstr(
                old(k).tasks@[c].unwrap().inner.memory_set,
                old(k).fm,
                path as int,
            ) && !(exists|i: int|
                0 <= i < old(k).apps@.len() && (#[trigger] old(k).apps@[i]).name@
                    == crate::uaccess::cstr_bytes(
                    old(k).tasks@[c].unwrap().inner.memory_set,
                    old(k).fm,
                    path as int,
                ))) ==> r == -1)
            &&& ((crate::uaccess::has_cstr(
                old(k).tasks@[c].unwrap().inner.memory_set,
                old(k).fm,
                path as int,
            ) && (exists|i: int|
                {
                    let nb = crate::uaccess::cstr_bytes(
                        old(k).tasks@[c].unwrap().inner.memory_set,
                        old(k).fm,
                        path as int,
                    );
                    &&& 0 <= i < old(k).apps@.len()
                    &&& (#[trigger] old(k).apps@[i]).name@ == nb
                    &&& (forall|l: int|
                        0 <= l < i ==> (#[trigger] old(k).apps@[l]).name@ != nb)
                    &&& crate::memory_set::image_ok(old(k).apps@[i].image)
                    &&& old(k).fm.avail() >= crate::memory_set::image_frames(
                        old(k).apps@[i].image,
                    )
                })) ==> r == 0)
        }),
{
    let ghost k0 = *k;
    let c = match k.current {
        Some(c) => c,
        None => unreached(),
    };
    let name = match &k.tasks[c] {
        Some(t) => translated_str(&t.inner.memory_set, &k.fm, path),
        None => unreached(),
    };
    let name = match name {
        Some(n) => n,
        None => {
            return -1;
        },
    };
    let app = match find_app(k, &name) {
        Some(i) => i,
        None => {
            return -1;
        },
    };
    let mut t = take_current(k);
    let ghost fm0 = k.fm;
    let ghost oc0 = t.inner.memory_set.owned();
    let ghost tpre = t;
    let ok = {
        let img = &k.apps[app].image;
        t.exec(&mut k.fm, img)
    };
    proof {
        sys_put_prep(k0, oc0);
    }
    put_current(k, t, Ghost(fm0), Ghost(oc0));
    if ok {
        0
    } else {
        proof {
            assert(k.tasks@ =~= k0.tasks@);
        }
        -1
    }
}

/// Spawn a child directly from the image named by the user string at
/// `path` (fork + exec without the intermediate copy).  Returns the new
/// pid, or -1 when the string does not resolve, no image has that
/// name, or pids or frames run out.
pub fn sys_spawn(k: &mut Kernel, path: usize) -> (r: isize)
    requires
        old(k).wf(),
        old(k).current is Some,
        path + STR_MAX_LEN + 1 <= usize::MAX,
        old(k).ready@.len() < usize::MAX,
        old(k).task_at(old(k).current.unwrap() as int).inner.children@.len() < usize::MAX,
    ensures
        final(k).wf(),
        final(k).current == old(k).current,
        r >= 0 ==> {
            let c = old(k).current.unwrap() as int;
            let d = r as int;
            let t0 = old(k).tasks@[c].unwrap();
            let t1 = final(k).tasks@[c].unwrap();
            let ch = final(k).tasks@[d].unwrap();
            &&& final(k).tasks@[d] is Some
            &&& d != c
            &&& ch.pid.0 == d
            &&& ch.inner.parent == Some(c as usize)
            &&& ch.inner.task_status == TaskStatus::Ready
            &&& ch.inner.fd_table@ == t0.inner.fd_table@
            &&& t1.inner.memory_set == t0.inner.memory_set
            &&& t1.inner.fd_table == t0.inner.fd_table
            &&& t1.inner.children@ == t0.inner.children@.push(r as usize)
            &&& final(k).ready@ == old(k).ready@.push(r as usize)
            &&& exists|i: int|
                0 <= i < old(k).apps@.len() && (#[trigger] old(k).apps@[i]).name@
                    == crate::uaccess::cstr_bytes(t0.inner.memory_set, old(k).fm, path as int)
                    && ch.inner.trap_cx.entry == old(k).apps@[i].image.entry
        },
        !crate::uaccess::has_cstr(
            old(k).tasks@[old(k).current.unwrap() as int].unwrap().inner.memory_set,
            old(k).fm,
            path as int,
        ) ==> r == -1,
        (crate::uaccess::has_cstr(
            old(k).tasks@[old(k).current.unwrap() as int].unwrap().inner.memory_set,
            old(k).fm,
            path as int,
        ) && !(exists|i: int|
            0 <= i < old(k).apps@.len() && (#[trigger] old(k).apps@[i]).name@
                == crate::uaccess::cstr_bytes(
                old(k).tasks@[old(k).current.unwrap() as int].unwrap().inner.memory_set,
                old(k).fm,
                path as int,
            ))) ==> r == -1,
        r == -1 ==> {
            &&& final(k).ready == old(k).ready
            &&& forall|q: int|
                0 <= q < old(k).tasks@.len() ==> final(k).tasks@[q] == old(k).tasks@[q]
        },
        (crate::uaccess::has_cstr(
            old(k).tasks@[old(k).current.unwrap() as int].unwrap().inner.memory_set,
            old(k).fm,
            path as int,
        ) && (old(k).recycled_pids@.len() > 0 || old(k).tasks@.len() < 0xfffd) && (exists|
            i: int,
        |
            {
                let nb = crate::uaccess::cstr_bytes(
                    old(k).tasks@[old(k).current.unwrap() as int].unwrap().inner.memory_set,
                    old(k).fm,
                    path as int,
                );
                &&& 0 <= i < old(k).apps@.len()
                &&& (#[trigger] old(k).apps@[i]).name@ == nb
                &&& (forall|l: int| 0 <= l < i ==> (#[trigger] old(k).apps@[l]).name@ != nb)
                &&& crate::memory_set::image_ok(old(k).apps@[i].image)
                &&& old(k).fm.avail() >= crate::memory_set::image_frames(
                    old(k).apps@[i].image,
                )
            })) ==> r >= 0,
{
    let ghost kpre = *k;
    let c = match k.current {
        Some(c) => c,
        None => unreached(),
    };
    let name = match &k.tasks[c] {
        Some(t) => translated_str(&t.inner.memory_set, &k.fm, path),
        None => unreached(),
    };
    let name = match name {
        Some(n) => n,
        None => {
            return -1;
        },
    };
    let app = match find_app(k, &name) {
        Some(i) => i,
        None => {
            return -1;
        },
    };
    let child_pid = match k.pid_alloc() {
        Some(p) => p,
        None => {
            return -1;
        },
    };
    let ghost k0 = *k;
    let mut t = take_current(k);
    let ghost fm0 = k.fm;
    let ghost oc0 = t.inner.memory_set.owned();
    let child = {
        let img = &k.apps[app].image;
        t.spawn(&mut k.fm, img, child_pid, child_pid)
    };
    proof {
        sys_put_prep(k0, oc0);
    }
    match child {
        Some(ch) => {
            proof {
                assert(t.wf_in(k.fm)) by {
                    let ms = t.inner.memory_set;
                    assert forall|i2: int, k2: int|
                        0 <= i2 < ms.areas@.len() && 0 <= k2
                            < ms.areas@[i2].frames@.len() implies k.fm.allocated().contains(
                        #[trigger] ms.areas@[i2].frames@[k2] as int,
                    ) by {
                        assert(fm0.allocated().contains(ms.areas@[i2].frames@[k2] as int));
                    }
                    assert(fm0.allocated().contains(ms.pt.root_ppn as int));
                    assert(k.fm.allocated().contains(ms.pt.root_ppn as int));
                }
            }
            put_current(k, t, Ghost(fm0), Ghost(oc0));
            proof {
                assert forall|p: int|
                    0 <= p < k.tasks@.len() && k.tasks@[p] is Some implies (
                #[trigger] k.tasks@[p]).unwrap().wf_in(fm0) by {
                    if p != c as int {
                        assert(k0.tasks@[p] is Some);
                    }
                }
            }
            install_child(k, ch, Ghost(fm0));
            child_pid as isize
        },
        None => {
            proof {
                assert(t.wf_in(k.fm)) by {
                    let ms = t.inner.memory_set;
                    assert forall|i2: int, k2: int|
                        0 <= i2 < ms.areas@.len() && 0 <= k2
                            < ms.areas@[i2].frames@.len() implies k.fm.allocated().contains(
                        #[trigger] ms.areas@[i2].frames@[k2] as int,
                    ) by {
                        assert(fm0.allocated().contains(ms.areas@[i2].frames@[k2] as int));
                    }
                    assert(fm0.allocated().contains(ms.pt.root_ppn as int));
                    assert(k.fm.allocated().contains(ms.pt.root_ppn as int));
                }
            }
            put_current(k, t, Ghost(fm0), Ghost(oc0));
            -1
        },
    }
}

/// Write the external clock through the user pointer as two
/// little-endian 8-byte words: whole seconds, then microseconds.  The
/// value may straddle a page boundary; each byte resolves separately.
/// Returns 0, or -1 when the range does not resolve.
pub fn sys_get_time(k: &mut Kernel, ts: usize, _tz: usize) -> (r: isize)
    requires
        old(k).wf(),
        old(k).current is Some,
        ts + 16 <= usize::MAX,
    ensures
        final(k).wf(),
        final(k).tasks@ == old(k).tasks@,
        final(k).current == old(k).current,
        final(k).time_us == old(k).time_us,
        final(k).files == old(k).files,
        final(k).dir == old(k).dir,
        final(k).open_files == old(k).open_files,
        final(k).console_out == old(k).console_out,
        final(k).console_in == old(k).console_in,
        final(k).ready == old(k).ready,
        final(k).recycled_pids == old(k).recycled_pids,
        ({
            let c = old(k).current.unwrap() as int;
            let ms = old(k).tasks@[c].unwrap().inner.memory_set;
            let sec = old(k).time_us / 1_000_000;
            let usec = old(k).time_us % 1_000_000;
            &&& (r == 0) == range_ok(ms, ts as int, 16)
            &&& (r == 0 ==> forall|j: int|
                #![trigger vstd::bytes::spec_u64_to_le_bytes(sec as u64)[j]]
                #![trigger vstd::bytes::spec_u64_to_le_bytes(usec as u64)[j]]
                0 <= j < 8 ==> user_byte(ms, final(k).fm, ts + j)
                    == vstd::bytes::spec_u64_to_le_bytes(sec as u64)[j] && user_byte(
                    ms,
                    final(k).fm,
                    ts + 8 + j,
                ) == vstd::bytes::spec_u64_to_le_bytes(usec as u64)[j])
            &&& (r == 0 || r == -1)
        }),
{
    let ghost k0 = *k;
    let c = match k.current {
        Some(c) => c,
        None => unreached(),
    };
    let us = k.time_us;
    let sec = us / 1_000_000;
    let usec = us % 1_000_000;
    let mut bytes = vstd::bytes::u64_to_le_bytes(sec as u64);
    let mut tail = vstd::bytes::u64_to_le_bytes(usec as u64);
    let ghost secb = bytes@;
    let ghost usecb = tail@;
    bytes.append(&mut tail);
    let ok = match &k.tasks[c] {
        Some(t) => copy_out(&t.inner.memory_set, &mut k.fm, ts, &bytes),
        None => unreached(),
    };
    proof {
        lemma_wf_after_userwrite(k0, *k, c as int);
        vstd::bytes::lemma_auto_spec_u64_to_from_le_bytes();
    }
    if ok {
        0
    } else {
        -1
    }
}

/// Write the current task's information through the user pointer: its
/// status word, the per-syscall counters, and milliseconds since first
/// dispatch, in little-endian layout.  The structure may straddle page
/// boundaries.  Returns 0, or -1 when the range does not resolve.
pub fn sys_task_info(k: &mut Kernel, ti: usize) -> (r: isize)
    requires
        old(k).wf(),
        old(k).current is Some,
        ti + 16 + 4 * MAX_SYSCALL_NUM <= usize::MAX,
    ensures
        final(k).wf(),
        final(k).tasks@ == old(k).tasks@,
        final(k).current == old(k).current,
        final(k).files == old(k).files,
        final(k).dir == old(k).dir,
        final(k).open_files == old(k).open_files,
        final(k).console_out == old(k).console_out,
        final(k).console_in == old(k).console_in,
        final(k).ready == old(k).ready,
        final(k).recycled_pids == old(k).recycled_pids,
        r == 0 || r == -1,
        ({
            let c = old(k).current.unwrap() as int;
            let ms = old(k).tasks@[c].unwrap().inner.memory_set;
            &&& (r == 0) == range_ok(ms, ti as int, 16 + 4 * MAX_SYSCALL_NUM)
            &&& (r == 0 ==> {
                let info = old(k).tasks@[c].unwrap().inner.taskinfo;
                let total = 16 + 4 * MAX_SYSCALL_NUM;
                let enc = task_info_bytes(
                    info.syscall_times@,
                    elapsed_ms(old(k).time_us as int, info.time as int),
                );
                forall|m: int|
                    0 <= m < total ==> user_byte(ms, final(k).fm, ti + m) == enc[m]
            })
        }),
{
    let ghost k0 = *k;
    let c = match k.current {
        Some(c) => c,
        None => unreached(),
    };
    let (times, dispatched) = match &k.tasks[c] {
        Some(t) => {
            let info = t.inner.get_taskinfo();
            (info.syscall_times, info.time)
        },
        None => unreached(),
    };
    // status word: the task asking is Running
    let mut bytes = vstd::bytes::u64_to_le_bytes(2u64);
    proof {
        vstd::bytes::lemma_auto_spec_u64_to_from_le_bytes();
        vstd::bytes::lemma_auto_spec_u32_to_from_le_bytes();
    }
    let mut i: usize = 0;
    while i < MAX_SYSCALL_NUM
        invariant
            i <= MAX_SYSCALL_NUM,
            times@.len() == MAX_SYSCALL_NUM,
            bytes@.len() == 8 + 4 * i,
            bytes@ == vstd::bytes::spec_u64_to_le_bytes(2u64) + counter_bytes(
                times@.take(i as int),
            ),
        decreases MAX_SYSCALL_NUM - i,
    {
        let mut w = vstd::bytes::u32_to_le_bytes(times[i]);
        bytes.append(&mut w);
        proof {
            vstd::bytes::lemma_auto_spec_u32_to_from_le_bytes();
            assert(times@.take(i + 1).drop_last() =~= times@.take(i as int));
            assert(times@.take(i + 1).last() == times@[i as int]);
            lemma_counter_bytes_len(times@.take(i as int));
            assert(bytes@ =~= vstd::bytes::spec_u64_to_le_bytes(2u64) + counter_bytes(
                times@.take(i + 1),
            ));
        }
        i += 1;
    }
    let elapsed = if k.time_us >= dispatched {
        (k.time_us - dispatched) / 1000
    } else {
        0
    };
    let mut w = vstd::bytes::u64_to_le_bytes(elapsed as u64);
    bytes.append(&mut w);
    proof {
        vstd::bytes::lemma_auto_spec_u64_to_from_le_bytes();
        lemma_counter_bytes_len(times@);
        assert(times@.take(MAX_SYSCALL_NUM as int) =~= times@);
        assert(bytes@ =~= task_info_bytes(
            times@,
            elapsed_ms(k0.time_us as int, dispatched as int),
        ));
        assert(bytes@.len() == 16 + 4 * MAX_SYSCALL_NUM);
    }
    let ok = match &k.tasks[c] {
        Some(t) => copy_out(&t.inner.memory_set, &mut k.fm, ti, &bytes),
        None => unreached(),
    };
    proof {
        lemma_wf_after_userwrite(k0, *k, c as int);
    }
    if ok {
        0
    } else {
        -1
    }
}

/// The counter encoding is four bytes per counter.
proof fn lemma_counter_bytes_len(s: Seq<u32>)
    ensures
        counter_bytes(s).len() == 4 * s.len(),
    decreases s.len(),
{
    vstd::bytes::lemma_auto_spec_u32_to_from_le_bytes();
    if s.len() > 0 {
        lemma_counter_bytes_len(s.drop_last());
    }
}

/// Contents of a file after writing `b` at byte offset `off`: the gap
/// before `off`, if any, reads as zeroes.
pub open spec fn spec_file_write(d: Seq<u8>, off: int, b: Seq<u8>) -> Seq<u8> {
    Seq::new(
        if d.len() > off + b.len() {
            d.len()
        } else {
            (off + b.len()) as nat
        },
        |i: int|
            if off <= i < off + b.len() {
                b[i - off]
            } else if i < d.len() {
                d[i]
            } else {
                0u8
            },
    )
}

/// Rewrite file data for a write of `bytes` at `off`.
fn file_write_at(data: &Vec<u8>, off: usize, bytes: &Vec<u8>) -> (r: Vec<u8>)
    requires
        off + bytes@.len() <= usize::MAX,
    ensures
        r@ == spec_file_write(data@, off as int, bytes@),
{
    let end = off + bytes.len();
    let total = if data.len() > end {
        data.len()
    } else {
        end
    };
    let mut out: Vec<u8> = Vec::new();
    let mut i: usize = 0;
    while i < total
        invariant
            i <= total,
            end == off + bytes@.len(),
            total == if data@.len() > end {
                data@.len() as int
            } else {
                end as int
            },
            out@.len() == i,
            forall|j: int|
                0 <= j < i ==> out@[j] == spec_file_write(data@, off as int, bytes@)[j],
        decreases total - i,
    {
        let b: u8 = if off <= i && i < end {
            bytes[i - off]
        } else if i < data.len() {
            data[i]
        } else {
            0
        };
        out.push(b);
        i += 1;
    }
    proof {
        assert(out@ =~= spec_file_write(data@, off as int, bytes@));
    }
    out
}

/// After touching only file contents, open-file offsets or console
/// streams, the kernel stays well formed.
proof fn lemma_wf_after_fs(k0: Kernel, k1: Kernel)
    requires
        k0.wf(),
        k1.tasks@ == k0.tasks@,
        k1.fm == k0.fm,
        k1.current == k0.current,
        k1.ready@ == k0.ready@,
        k1.recycled_pids@ == k0.recycled_pids@,
        k1.files@.len() == k0.files@.len(),
        k1.dir@.len() == k0.dir@.len(),
        k1.open_files@.len() == k0.open_files@.len(),
        forall|i: int|
            0 <= i < k1.open_files@.len() ==> (#[trigger] k1.open_files@[i]).ino
                == k0.open_files@[i].ino,
        forall|d: int|
            0 <= d < k1.dir@.len() ==> (#[trigger] k1.dir@[d]).ino == k0.dir@[d].ino,
    ensures
        k1.wf(),
{
    assert forall|p: int|
        0 <= p < k1.tasks@.len() && k1.tasks@[p] is Some implies {
        &&& (#[trigger] k1.tasks@[p]).unwrap().pid.0 == p
        &&& k1.tasks@[p].unwrap().kernel_stack.0 == p
        &&& k1.tasks@[p].unwrap().wf_in(k1.fm)
    } by {
        assert(k0.tasks@[p].unwrap().wf_in(k0.fm));
    }
}

/// After changes only to the filesystem tables (directory entries,
/// file contents, open-file entries) that keep every inode reference in
/// range, the kernel stays well formed.
proof fn lemma_wf_tables(k0: Kernel, k1: Kernel)
    requires
        k0.wf(),
        k1.tasks@ == k0.tasks@,
        k1.fm == k0.fm,
        k1.current == k0.current,
        k1.ready@ == k0.ready@,
        k1.recycled_pids@ == k0.recycled_pids@,
        k1.open_files@.len() >= k0.open_files@.len(),
        forall|i: int|
            0 <= i < k1.open_files@.len() ==> (#[trigger] k1.open_files@[i]).ino
                < k1.files@.len(),
        forall|d: int|
            0 <= d < k1.dir@.len() ==> (#[trigger] k1.dir@[d]).ino < k1.files@.len(),
    ensures
        k1.wf(),
{
    assert forall|p: int|
        0 <= p < k1.tasks@.len() && k1.tasks@[p] is Some implies {
        &&& (#[trigger] k1.tasks@[p]).unwrap().pid.0 == p
        &&& k1.tasks@[p].unwrap().kernel_stack.0 == p
        &&& k1.tasks@[p].unwrap().wf_in(k1.fm)
    } by {
        assert(k0.tasks@[p].unwrap().wf_in(k0.fm));
    }
    assert forall|p: int, j: int|
        0 <= p < k1.tasks@.len() && k1.tasks@[p] is Some && 0 <= j < (
    #[trigger] k1.tasks@[p]).unwrap().inner.fd_table@.len() implies ((
    #[trigger] k1.tasks@[p].unwrap().inner.fd_table@[j]) matches Some(
        FileHandle::File(kk),
    ) ==> kk < k1.open_files@.len()) by {
        assert(k0.tasks@[p].unwrap() == k1.tasks@[p].unwrap());
    }
}

/// Write `len` bytes of the current task's buffer at `buf` through a
/// file descriptor: to the console for stdout, at the shared offset for
/// an open file.  Returns the bytes transferred, or -1 for a bad or
/// non-writable descriptor or an unresolvable buffer.
pub fn sys_write(k: &mut Kernel, fd: usize, buf: usize, len: usize) -> (r: isize)
    requires
        old(k).wf(),
        old(k).current is Some,
        buf + len <= usize::MAX,
        len < 0x8000_0000,
    ensures
        final(k).wf(),
        final(k).tasks@ == old(k).tasks@,
        final(k).current == old(k).current,
        r == -1 || r == len,
        ({
            let c = old(k).current.unwrap() as int;
            let t0 = old(k).tasks@[c].unwrap();
            let ms = t0.inner.memory_set;
            &&& (fd >= t0.inner.fd_table@.len() ==> r == -1 && *final(k) == *old(k))
            &&& (fd < t0.inner.fd_table@.len() ==> {
                match t0.inner.fd_table@[fd as int] {
                    None => r == -1 && *final(k) == *old(k),
                    Some(FileHandle::Stdin) => r == -1 && *final(k) == *old(k),
                    Some(FileHandle::Stdout) => {
                        &&& (r == len) == range_ok(ms, buf as int, len as int)
                        &&& (r == len ==> final(k).console_out@ == old(k).console_out@
                            + cur_bytes(*old(k), buf as int, len as int))
                        &&& (r == -1 ==> *final(k) == *old(k))
                    },
                    Some(FileHandle::File(h)) => {
                        let of = old(k).open_files@[h as int];
                        &&& (!of.writable ==> r == -1 && *final(k) == *old(k))
                        &&& (of.writable ==> {
                            &&& (r == len) == (range_ok(ms, buf as int, len as int)
                                && of.offset + len <= usize::MAX)
                            &&& (r == len ==> {
                                &&& final(k).files@[of.ino as int]@ == spec_file_write(
                                    old(k).files@[of.ino as int]@,
                                    of.offset as int,
                                    cur_bytes(*old(k), buf as int, len as int),
                                )
                                &&& final(k).open_files@[h as int].offset == of.offset + len
                            })
                        })
                    },
                }
            })
        }),
{
    let ghost k0 = *k;
    let c = match k.current {
        Some(c) => c,
        None => unreached(),
    };
    let handle = match &k.tasks[c] {
        Some(t) => {
            if fd >= t.inner.fd_table.len() {
                return -1;
            }
            t.inner.fd_table[fd]
        },
        None => unreached(),
    };
    let handle = match handle {
        Some(h) => h,
        None => {
            return -1;
        },
    };
    match handle {
        FileHandle::Stdin => -1,
        FileHandle::Stdout => {
            let data = match &k.tasks[c] {
                Some(t) => copy_in(&t.inner.memory_set, &k.fm, buf, len),
                None => unreached(),
            };
            match data {
                Some(bytes) => {
                    let ghost pre_out = k.console_out@;
                    let mut b = bytes;
                    k.console_out.append(&mut b);
                    proof {
                        lemma_wf_after_fs(k0, *k);
                        assert(k.console_out@ =~= pre_out + cur_bytes(
                            k0,
                            buf as int,
                            len as int,
                        ));
                    }
                    len as isize
                },
                None => -1,
            }
        },
        FileHandle::File(h) => {
            let of = k.open_files[h];
            if !of.writable {
                return -1;
            }
            let data = match &k.tasks[c] {
                Some(t) => copy_in(&t.inner.memory_set, &k.fm, buf, len),
                None => unreached(),
            };
            let bytes = match data {
                Some(bytes) => bytes,
                None => {
                    return -1;
                },
            };
            if len > usize::MAX - of.offset {
                return -1;
            }
            let new_data = file_write_at(&k.files[of.ino], of.offset, &bytes);
            k.files.set(of.ino, new_data);
            k.open_files.set(
                h,
                OpenFile { offset: of.offset + len, ..of },
            );
            proof {
                lemma_wf_after_fs(k0, *k);
                assert(cur_bytes(k0, buf as int, len as int) =~= bytes@);
            }
            len as isize
        },
    }
}

/// Read up to `len` bytes through a file descriptor into the current
/// task's buffer at `buf`: from buffered console input for stdin, from
/// the shared offset for an open file.  Returns the bytes transferred,
/// or -1 for a bad or non-readable descriptor or an unresolvable
/// buffer.
pub fn sys_read(k: &mut Kernel, fd: usize, buf: usize, len: usize) -> (r: isize)
    requires
        old(k).wf(),
        old(k).current is Some,
        buf + len <= usize::MAX,
        len < 0x8000_0000,
    ensures
        final(k).wf(),
        final(k).tasks@ == old(k).tasks@,
        final(k).current == old(k).current,
        r >= 0 ==> r <= len,
        final(k).console_out == old(k).console_out,
        final(k).dir == old(k).dir,
        final(k).files == old(k).files,
        r == -1 ==> {
            &&& final(k).fm.mem@ == old(k).fm.mem@
            &&& final(k).console_in == old(k).console_in
            &&& final(k).open_files == old(k).open_files
        },
        ({
            let c = old(k).current.unwrap() as int;
            let t0 = old(k).tasks@[c].unwrap();
            let ms = t0.inner.memory_set;
            &&& (fd >= t0.inner.fd_table@.len() ==> r == -1)
            &&& (fd < t0.inner.fd_table@.len() ==> {
                match t0.inner.fd_table@[fd as int] {
                    None => r == -1,
                    Some(FileHandle::Stdout) => r == -1,
                    Some(FileHandle::Stdin) => {
                        let n = if len < old(k).console_in@.len() {
                            len as int
                        } else {
                            old(k).console_in@.len() as int
                        };
                        &&& (r == n) == range_ok(ms, buf as int, n)
                        &&& (!range_ok(ms, buf as int, n) ==> r == -1)
                        &&& (r == n ==> {
                            &&& (forall|j: int|
                                0 <= j < n ==> user_byte(ms, final(k).fm, buf + j) == old(
                                    k,
                                ).console_in@[j])
                            &&& final(k).console_in@ == old(k).console_in@.skip(n)
                            &&& final(k).open_files == old(k).open_files
                        })
                    },
                    Some(FileHandle::File(h)) => {
                        let of = old(k).open_files@[h as int];
                        let data = old(k).files@[of.ino as int]@;
                        let start = if of.offset < data.len() {
                            of.offset as int
                        } else {
                            data.len() as int
                        };
                        let n = if len < data.len() - start {
                            len as int
                        } else {
                            data.len() - start
                        };
                        &&& (!of.readable ==> r == -1)
                        &&& (of.readable ==> {
                            &&& (r == n) == range_ok(ms, buf as int, n)
                            &&& (!range_ok(ms, buf as int, n) ==> r == -1)
                            &&& (r == n ==> {
                                &&& (forall|j: int|
                                    #![trigger data[start + j]]
                                    0 <= j < n ==> user_byte(ms, final(k).fm, buf + j)
                                        == data[start + j])
                                &&& final(k).open_files@ == old(k).open_files@.update(
                                    h as int,
                                    OpenFile { offset: (start + n) as usize, ..of },
                                )
                                &&& final(k).console_in == old(k).console_in
                            })
                        })
                    },
                }
            })
        }),
{
    let ghost k0 = *k;
    let c = match k.current {
        Some(c) => c,
        None => unreached(),
    };
    let handle = match &k.tasks[c] {
        Some(t) => {
            if fd >= t.inner.fd_table.len() {
                return -1;
            }
            t.inner.fd_table[fd]
        },
        None => unreached(),
    };
    let handle = match handle {
        Some(h) => h,
        None => {
            return -1;
        },
    };
    match handle {
        FileHandle::Stdout => -1,
        FileHandle::Stdin => {
            let avail = k.console_in.len();
            let n = if len < avail {
                len
            } else {
                avail
            };
            let mut taken: Vec<u8> = Vec::new();
            let mut i: usize = 0;
            while i < n
                invariant
                    i <= n,
                    n <= k.console_in@.len(),
                    *k == k0,
                    taken@.len() == i,
                    forall|j: int| 0 <= j < i ==> taken@[j] == k.console_in@[j],
                decreases n - i,
            {
                taken.push(k.console_in[i]);
                i += 1;
            }
            let ok = match &k.tasks[c] {
                Some(t) => copy_out(&t.inner.memory_set, &mut k.fm, buf, &taken),
                None => unreached(),
            };
            proof {
                lemma_wf_after_userwrite(k0, *k, c as int);
            }
            if !ok {
                return -1;
            }
            let ghost kmid = *k;
            // consume what was read
            let mut rest: Vec<u8> = Vec::new();
            let mut i: usize = n;
            while i < k.console_in.len()
                invariant
                    n <= i <= k.console_in@.len(),
                    rest@.len() == i - n,
                    forall|l: int| 0 <= l < i - n ==> rest@[l] == k.console_in@[n + l],
                    *k == kmid,
                decreases k.console_in@.len() - i,
            {
                let b = k.console_in[i];
                rest.push(b);
                i += 1;
            }
            k.console_in = rest;
            proof {
                lemma_wf_after_fs(kmid, *k);
                assert(k.console_in@ =~= k0.console_in@.skip(n as int));
            }
            n as isize
        },
        FileHandle::File(h) => {
            let of = k.open_files[h];
            if !of.readable {
                return -1;
            }
            let flen = k.files[of.ino].len();
            let start = if of.offset < flen {
                of.offset
            } else {
                flen
            };
            let avail = flen - start;
            let n = if len < avail {
                len
            } else {
                avail
            };
            proof {
                assert(start + n <= k.files@[of.ino as int]@.len());
            }
            let stop = start + n;
            let mut taken: Vec<u8> = Vec::new();
            let mut pos: usize = start;
            while pos < stop
                invariant
                    start <= pos <= stop,
                    stop == start + n,
                    stop <= k.files@[of.ino as int]@.len(),
                    of.ino < k.files@.len(),
                    *k == k0,
                    taken@.len() == pos - start,
                    forall|l: int|
                        0 <= l < pos - start ==> taken@[l] == k.files@[of.ino as int]@[start
                            + l],
                decreases stop - pos,
            {
                taken.push(k.files[of.ino][pos]);
                pos += 1;
            }
            let ok = match &k.tasks[c] {
                Some(t) => copy_out(&t.inner.memory_set, &mut k.fm, buf, &taken),
                None => unreached(),
            };
            proof {
                lemma_wf_after_userwrite(k0, *k, c as int);
            }
            if !ok {
                return -1;
            }
            k.open_files.set(h, OpenFile { offset: start + n, ..of });
            proof {
                let ghost k1 = *k;
                assert forall|i2: int| 0 <= i2 < k1.open_files@.len() implies (
                #[trigger] k1.open_files@[i2]).ino < k1.files@.len() by {
                    if i2 != h as int {
                        assert(k1.open_files@[i2] == k0.open_files@[i2]);
                    }
                }
                assert forall|p: int, j: int|
                    0 <= p < k1.tasks@.len() && k1.tasks@[p] is Some && 0 <= j < (
                #[trigger] k1.tasks@[p]).unwrap().inner.fd_table@.len() implies ((
                #[trigger] k1.tasks@[p].unwrap().inner.fd_table@[j]) matches Some(
                    FileHandle::File(kk),
                ) ==> kk < k1.open_files@.len()) by {}
            }
            n as isize
        },
    }
}

/// Find the first directory entry bearing a name.
fn find_dirent_first(k: &Kernel, name: &Vec<u8>) -> (r: Option<usize>)
    ensures
        r is Some ==> {
            &&& r.unwrap() < k.dir@.len()
            &&& k.dir@[r.unwrap() as int].name@ == name@
            &&& forall|l: int|
                0 <= l < r.unwrap() ==> (#[trigger] k.dir@[l]).name@ != name@
        },
        r is None ==> forall|i: int| 0 <= i < k.dir@.len() ==> (#[trigger] k.dir@[i]).name@ != name@,
        (r is Some) == exists|i: int|
            0 <= i < k.dir@.len() && (#[trigger] k.dir@[i]).name@ == name@,
{
    let mut i: usize = 0;
    while i < k.dir.len()
        invariant
            i <= k.dir@.len(),
            forall|l: int| 0 <= l < i ==> (#[trigger] k.dir@[l]).name@ != name@,
        decreases k.dir@.len() - i,
    {
        if bytes_equal(&k.dir[i].name, name) {
            return Some(i);
        }
        i += 1;
    }
    None
}

/// Find a directory entry by name.
fn find_dirent(k: &Kernel, name: &Vec<u8>) -> (r: Option<usize>)
    ensures
        r is Some ==> r.unwrap() < k.dir@.len() && k.dir@[r.unwrap() as int].name@ == name@,
        r is None ==> forall|i: int| 0 <= i < k.dir@.len() ==> (#[trigger] k.dir@[i]).name@ != name@,
        (r is Some) == exists|i: int|
            0 <= i < k.dir@.len() && (#[trigger] k.dir@[i]).name@ == name@,
{
    let mut i: usize = 0;
    while i < k.dir.len()
        invariant
            i <= k.dir@.len(),
            forall|l: int| 0 <= l < i ==> (#[trigger] k.dir@[l]).name@ != name@,
        decreases k.dir@.len() - i,
    {
        if bytes_equal(&k.dir[i].name, name) {
            return Some(i);
        }
        i += 1;
    }
    None
}

/// Open the file named by the user string at `path` for the current
/// task.  With the create flag the file is created (or cleared when it
/// exists); without it an unknown name fails.  Returns the new file
/// descriptor, or -1.
pub fn sys_open(k: &mut Kernel, path: usize, flags: u32) -> (r: isize)
    requires
        old(k).wf(),
        old(k).current is Some,
        path + STR_MAX_LEN + 1 <= usize::MAX,
        old(k).task_at(old(k).current.unwrap() as int).inner.fd_table@.len() < 0x10000,
        old(k).open_files@.len() < usize::MAX,
        old(k).files@.len() < usize::MAX,
        old(k).dir@.len() < usize::MAX,
    ensures
        final(k).wf(),
        final(k).current == old(k).current,
        r == -1 || r >= 0,
        r == -1 ==> {
            &&& final(k).tasks@ == old(k).tasks@
            &&& final(k).open_files == old(k).open_files
            &&& final(k).dir@ == old(k).dir@
            &&& final(k).files@ == old(k).files@
            &&& final(k).ready == old(k).ready
        },
        ({
            let ms = old(k).tasks@[old(k).current.unwrap() as int].unwrap().inner.memory_set;
            let nb = crate::uaccess::cstr_bytes(ms, old(k).fm, path as int);
            (r >= 0) == (crate::uaccess::has_cstr(ms, old(k).fm, path as int) && (flags
                & 0x200 != 0 || exists|d: int|
                0 <= d < old(k).dir@.len() && (#[trigger] old(k).dir@[d]).name@ == nb))
        }),
        r >= 0 ==> {
            let c = old(k).current.unwrap() as int;
            let t0 = old(k).tasks@[c].unwrap();
            let t1 = final(k).tasks@[c].unwrap();
            let ms = t0.inner.memory_set;
            let nb = crate::uaccess::cstr_bytes(ms, old(k).fm, path as int);
            let entry = final(k).open_files@.last();
            &&& r < t1.inner.fd_table@.len()
            &&& (forall|j: int| 0 <= j < r ==> t0.inner.fd_table@[j] is Some)
            &&& (r < t0.inner.fd_table@.len() ==> t1.inner.fd_table@
                == t0.inner.fd_table@.update(
                r as int,
                Some(FileHandle::File((final(k).open_files@.len() - 1) as usize)),
            ))
            &&& (r == t0.inner.fd_table@.len() ==> t1.inner.fd_table@
                == t0.inner.fd_table@.push(
                Some(FileHandle::File((final(k).open_files@.len() - 1) as usize)),
            ))
            &&& t1.inner.fd_table@[r as int] == Some(
                FileHandle::File((final(k).open_files@.len() - 1) as usize),
            )
            &&& final(k).open_files@ == old(k).open_files@.push(entry)
            &&& entry.readable == (flags & 0x1 == 0)
            &&& entry.writable == (flags & 0x1 != 0 || flags & 0x2 != 0)
            &&& entry.offset == 0
            &&& ((exists|d: int|
                0 <= d < old(k).dir@.len() && (#[trigger] old(k).dir@[d]).name@ == nb)
                ==> exists|d: int|
                {
                    &&& 0 <= d < old(k).dir@.len()
                    &&& (#[trigger] old(k).dir@[d]).name@ == nb
                    &&& (forall|l: int| 0 <= l < d ==> (#[trigger] old(k).dir@[l]).name@ != nb)
                    &&& entry.ino == old(k).dir@[d].ino
                    &&& final(k).dir@ == old(k).dir@
                })
            &&& (!(exists|d: int|
                0 <= d < old(k).dir@.len() && (#[trigger] old(k).dir@[d]).name@ == nb) ==> {
                &&& entry.ino == old(k).files@.len()
                &&& final(k).files@.len() == old(k).files@.len() + 1
                &&& final(k).dir@.len() == old(k).dir@.len() + 1
                &&& final(k).dir@.last().name@ == nb
                &&& final(k).dir@.last().ino == entry.ino
            })
        },
{
    let ghost k0 = *k;
    let c = match k.current {
        Some(c) => c,
        None => unreached(),
    };
    let name = match &k.tasks[c] {
        Some(t) => translated_str(&t.inner.memory_set, &k.fm, path),
        None => unreached(),
    };
    let name = match name {
        Some(n) => n,
        None => {
            return -1;
        },
    };
    let create = flags & 0x200 != 0;
    let trunc = flags & 0x400 != 0;
    let readable = flags & 0x1 == 0;
    let writable = flags & 0x1 != 0 || flags & 0x2 != 0;
    let found = find_dirent_first(k, &name);
    let ino = match found {
        Some(d) => {
            let ino = k.dir[d].ino;
            if create || trunc {
                k.files.set(ino, Vec::new());
            }
            ino
        },
        None => {
            if !create {
                return -1;
            }
            let ino = k.files.len();
            k.files.push(Vec::new());
            k.dir.push(crate::kernel::DirEnt { name, ino });
            ino
        },
    };
    proof {
        assert forall|d2: int| 0 <= d2 < k.dir@.len() implies (#[trigger] k.dir@[d2]).ino
            < k.files@.len() by {
            if d2 < k0.dir@.len() {
                assert(k.dir@[d2] == k0.dir@[d2]);
            }
        }
        assert forall|i2: int| 0 <= i2 < k.open_files@.len() implies (
        #[trigger] k.open_files@[i2]).ino < k.files@.len() by {}
        lemma_wf_tables(k0, *k);
    }
    let ghost kmid = *k;
    let handle_idx = k.open_files.len();
    k.open_files.push(OpenFile { ino, offset: 0, readable, writable });
    let mut t = take_current(k);
    let ghost fm0 = k.fm;
    let ghost oc0 = t.inner.memory_set.owned();
    let ghost t0 = t;
    let fd = t.inner.alloc_fd();
    let ghost tmid = t;
    t.inner.fd_table.set(fd, Some(FileHandle::File(handle_idx)));
    proof {
        sys_put_prep(kmid, oc0);
        assert forall|j: int|
            0 <= j < t.inner.fd_table@.len() implies ((
        #[trigger] t.inner.fd_table@[j]) matches Some(FileHandle::File(kk)) ==> kk
            < k.open_files@.len()) by {
            if j != fd as int {
                assert(t.inner.fd_table@[j] == tmid.inner.fd_table@[j]);
                if j < t0.inner.fd_table@.len() {
                    assert(tmid.inner.fd_table@[j] == t0.inner.fd_table@[j]);
                    assert(t0 == kmid.tasks@[c as int].unwrap());
                    assert((kmid.tasks@[c as int].unwrap().inner.fd_table@[j]) matches Some(
                        FileHandle::File(kk2),
                    ) ==> kk2 < kmid.open_files@.len());
                } else {
                    assert(tmid.inner.fd_table@[j] is None);
                }
            }
        }
        assert forall|i2: int| 0 <= i2 < k.open_files@.len() implies (
        #[trigger] k.open_files@[i2]).ino < k.files@.len() by {
            if i2 < kmid.open_files@.len() {
                assert(k.open_files@[i2] == kmid.open_files@[i2]);
            }
        }
        assert forall|p: int, j: int|
            0 <= p < k.tasks@.len() && k.tasks@[p] is Some && 0 <= j < (
        #[trigger] k.tasks@[p]).unwrap().inner.fd_table@.len() implies ((
        #[trigger] k.tasks@[p].unwrap().inner.fd_table@[j]) matches Some(
            FileHandle::File(kk),
        ) ==> kk < k.open_files@.len()) by {
            assert(kmid.tasks@[p] == k.tasks@[p]);
        }
    }
    put_current(k, t, Ghost(fm0), Ghost(oc0));
    fd as isize
}

/// Close a file descriptor of the current task.  Returns 0, or -1 when
/// the descriptor is out of range or already closed.
pub fn sys_close(k: &mut Kernel, fd: usize) -> (r: isize)
    requires
        old(k).wf(),
        old(k).current is Some,
    ensures
        final(k).wf(),
        final(k).current == old(k).current,
        r == 0 || r == -1,
        ({
            let c = old(k).current.unwrap() as int;
            let t0 = old(k).tasks@[c].unwrap();
            &&& ((fd >= t0.inner.fd_table@.len() || t0.inner.fd_table@[fd as int] is None)
                <==> r == -1)
            &&& (r == -1 ==> *final(k) == *old(k))
            &&& (r == 0 ==> final(k).tasks@[c].unwrap().inner.fd_table@
                == t0.inner.fd_table@.update(fd as int, None))
        }),
{
    let ghost k0 = *k;
    let c = match k.current {
        Some(c) => c,
        None => unreached(),
    };
    match &k.tasks[c] {
        Some(t) => {
            if fd >= t.inner.fd_table.len() {
                return -1;
            }
            if t.inner.fd_table[fd].is_none() {
                return -1;
            }
        },
        None => unreached(),
    }
    let mut t = take_current(k);
    let ghost fm0 = k.fm;
    let ghost oc0 = t.inner.memory_set.owned();
    t.inner.fd_table.set(fd, None);
    proof {
        sys_put_prep(k0, oc0);
    }
    put_current(k, t, Ghost(fm0), Ghost(oc0));
    0
}

/// Link a new name to the file an old name points at.  Fails (-1) when
/// either string does not resolve, the two names are equal, the new
/// name already exists, or the old name does not exist.
pub fn sys_linkat(k: &mut Kernel, old_name: usize, new_name: usize) -> (r: isize)
    requires
        old(k).wf(),
        old(k).current is Some,
        old_name + STR_MAX_LEN + 1 <= usize::MAX,
        new_name + STR_MAX_LEN + 1 <= usize::MAX,
        old(k).dir@.len() < usize::MAX,
    ensures
        final(k).wf(),
        final(k).tasks@ == old(k).tasks@,
        final(k).current == old(k).current,
        r == 0 || r == -1,
        r == -1 ==> final(k).dir@ == old(k).dir@,
        ({
            let ms = old(k).tasks@[old(k).current.unwrap() as int].unwrap().inner.memory_set;
            let ob = crate::uaccess::cstr_bytes(ms, old(k).fm, old_name as int);
            let nb = crate::uaccess::cstr_bytes(ms, old(k).fm, new_name as int);
            &&& (r == 0) == {
                &&& crate::uaccess::has_cstr(ms, old(k).fm, old_name as int)
                &&& crate::uaccess::has_cstr(ms, old(k).fm, new_name as int)
                &&& ob != nb
                &&& !(exists|d: int|
                    0 <= d < old(k).dir@.len() && (#[trigger] old(k).dir@[d]).name@ == nb)
                &&& exists|d: int|
                    0 <= d < old(k).dir@.len() && (#[trigger] old(k).dir@[d]).name@ == ob
            }
            &&& (r == 0 ==> exists|d: int|
                {
                    &&& 0 <= d < old(k).dir@.len()
                    &&& (#[trigger] old(k).dir@[d]).name@ == ob
                    &&& (forall|l: int| 0 <= l < d ==> (#[trigger] old(k).dir@[l]).name@ != ob)
                    &&& final(k).dir@.len() == old(k).dir@.len() + 1
                    &&& (forall|l: int|
                        0 <= l < old(k).dir@.len() ==> final(k).dir@[l] == old(k).dir@[l])
                    &&& final(k).dir@.last().name@ == nb
                    &&& final(k).dir@.last().ino == old(k).dir@[d].ino
                })
        }),
{
    let ghost k0 = *k;
    let c = match k.current {
        Some(c) => c,
        None => unreached(),
    };
    let (oldp, newp) = match &k.tasks[c] {
        Some(t) => {
            let a = translated_str(&t.inner.memory_set, &k.fm, old_name);
            let b = translated_str(&t.inner.memory_set, &k.fm, new_name);
            (a, b)
        },
        None => unreached(),
    };
    let oldp = match oldp {
        Some(n) => n,
        None => {
            return -1;
        },
    };
    let newp = match newp {
        Some(n) => n,
        None => {
            return -1;
        },
    };
    if bytes_equal(&oldp, &newp) {
        return -1;
    }
    if find_dirent(k, &newp).is_some() {
        return -1;
    }
    let d = match find_dirent_first(k, &oldp) {
        Some(d) => d,
        None => {
            return -1;
        },
    };
    let ino = k.dir[d].ino;
    let ghost nb = newp@;
    k.dir.push(crate::kernel::DirEnt { name: newp, ino });
    proof {
        assert forall|d2: int| 0 <= d2 < k.dir@.len() implies (#[trigger] k.dir@[d2]).ino
            < k.files@.len() by {
            if d2 < k0.dir@.len() {
                assert(k.dir@[d2] == k0.dir@[d2]);
            }
        }
        lemma_wf_tables(k0, *k);
        assert(k.dir@.last().ino == k0.dir@[d as int].ino);
    }
    0
}

/// Remove a name from the directory.  Fails (-1) when the string does
/// not resolve or no entry has that name.
pub fn sys_unlinkat(k: &mut Kernel, name_ptr: usize) -> (r: isize)
    requires
        old(k).wf(),
        old(k).current is Some,
        name_ptr + STR_MAX_LEN + 1 <= usize::MAX,
    ensures
        final(k).wf(),
        final(k).tasks@ == old(k).tasks@,
        final(k).current == old(k).current,
        r == 0 || r == -1,
        r == -1 ==> final(k).dir@ == old(k).dir@,
        ({
            let ms = old(k).tasks@[old(k).current.unwrap() as int].unwrap().inner.memory_set;
            let nb = crate::uaccess::cstr_bytes(ms, old(k).fm, name_ptr as int);
            &&& (r == 0) == (crate::uaccess::has_cstr(ms, old(k).fm, name_ptr as int) && (
            exists|d: int|
                0 <= d < old(k).dir@.len() && (#[trigger] old(k).dir@[d]).name@ == nb))
            &&& (r == 0 ==> exists|d: int|
                {
                    &&& 0 <= d < old(k).dir@.len()
                    &&& (#[trigger] old(k).dir@[d]).name@ == nb
                    &&& (forall|l: int| 0 <= l < d ==> (#[trigger] old(k).dir@[l]).name@ != nb)
                    &&& final(k).dir@ == old(k).dir@.remove(d)
                })
        }),
{
    let ghost k0 = *k;
    let c = match k.current {
        Some(c) => c,
        None => unreached(),
    };
    let name = match &k.tasks[c] {
        Some(t) => translated_str(&t.inner.memory_set, &k.fm, name_ptr),
        None => unreached(),
    };
    let name = match name {
        Some(n) => n,
        None => {
            return -1;
        },
    };
    let d = match find_dirent_first(k, &name) {
        Some(d) => d,
        None => {
            return -1;
        },
    };
    k.dir.remove(d);
    proof {
        assert forall|d2: int| 0 <= d2 < k.dir@.len() implies (#[trigger] k.dir@[d2]).ino
            < k.files@.len() by {
            if d2 < d as int {
                assert(k.dir@[d2] == k0.dir@[d2]);
            } else {
                assert(k.dir@[d2] == k0.dir@[d2 + 1]);
            }
        }
        lemma_wf_tables(k0, *k);
    }
    0
}

/// How many directory entries link to inode `ino`.
pub open spec fn count_links(dir: Seq<crate::kernel::DirEnt>, ino: int) -> int
    decreases dir.len(),
{
    if dir.len() == 0 {
        0
    } else {
        count_links(dir.drop_last(), ino) + if dir.last().ino == ino {
            1int
        } else {
            0int
        }
    }
}

/// The byte layout `sys_fstat` writes: device 0, the inode, the regular
/// file mode word, and the link count, all little-endian.
pub open spec fn stat_bytes(ino: int, nlink: int) -> Seq<u8> {
    vstd::bytes::spec_u64_to_le_bytes(0u64) + vstd::bytes::spec_u64_to_le_bytes(ino as u64)
        + vstd::bytes::spec_u32_to_le_bytes(32768u32) + vstd::bytes::spec_u32_to_le_bytes(
        nlink as u32,
    )
}

/// Write the status of an open file through the user pointer: device 0,
/// inode, the regular-file mode word, and the number of directory
/// entries linking to the inode, 24 bytes little-endian (the value may
/// straddle a page boundary).  Fails (-1) for a bad descriptor, a
/// console descriptor (the console has no inode in the model), or an
/// unresolvable pointer.
pub fn sys_fstat(k: &mut Kernel, fd: usize, st: usize) -> (r: isize)
    requires
        old(k).wf(),
        old(k).current is Some,
        st + 24 <= usize::MAX,
    ensures
        final(k).wf(),
        final(k).tasks@ == old(k).tasks@,
        final(k).current == old(k).current,
        final(k).files == old(k).files,
        final(k).dir == old(k).dir,
        final(k).open_files == old(k).open_files,
        final(k).console_out == old(k).console_out,
        final(k).console_in == old(k).console_in,
        final(k).ready == old(k).ready,
        r == 0 || r == -1,
        ({
            let c = old(k).current.unwrap() as int;
            let t0 = old(k).tasks@[c].unwrap();
            let ms = t0.inner.memory_set;
            &&& (r == 0) == (fd < t0.inner.fd_table@.len() && (exists|h: usize|
                t0.inner.fd_table@[fd as int] == Some(FileHandle::File(h))) && range_ok(
                ms,
                st as int,
                24,
            ))
            &&& (r == 0 ==> exists|h: usize|
                {
                    &&& #[trigger] t0.inner.fd_table@[fd as int] == Some(FileHandle::File(h))
                    &&& forall|m: int|
                        0 <= m < 24 ==> user_byte(ms, final(k).fm, st + m) == stat_bytes(
                            old(k).open_files@[h as int].ino as int,
                            count_links(old(k).dir@, old(k).open_files@[h as int].ino as int),
                        )[m]
                })
        }),
{
    let ghost k0 = *k;
    let c = match k.current {
        Some(c) => c,
        None => unreached(),
    };
    let handle = match &k.tasks[c] {
        Some(t) => {
            if fd >= t.inner.fd_table.len() {
                return -1;
            }
            t.inner.fd_table[fd]
        },
        None => unreached(),
    };
    let h = match handle {
        Some(FileHandle::File(h)) => h,
        _ => {
            return -1;
        },
    };
    let ino = k.open_files[h].ino;
    let n = k.dir.len();
    let mut nlink: usize = 0;
    let mut i: usize = 0;
    while i < n
        invariant
            i <= n,
            n == k.dir@.len(),
            *k == k0,
            nlink <= i,
            nlink == count_links(k.dir@.take(i as int), ino as int),
        decreases n - i,
    {
        if k.dir[i].ino == ino {
            nlink = nlink + 1;
        }
        proof {
            assert(k.dir@.take(i + 1).drop_last() =~= k.dir@.take(i as int));
            assert(k.dir@.take(i + 1).last() == k.dir@[i as int]);
        }
        i += 1;
    }
    proof {
        assert(k.dir@.take(n as int) =~= k.dir@);
    }
    let mut bytes = vstd::bytes::u64_to_le_bytes(0u64);
    let mut w = vstd::bytes::u64_to_le_bytes(ino as u64);
    bytes.append(&mut w);
    let mut w = vstd::bytes::u32_to_le_bytes(32768u32);
    bytes.append(&mut w);
    let mut w = vstd::bytes::u32_to_le_bytes(nlink as u32);
    bytes.append(&mut w);
    proof {
        vstd::bytes::lemma_auto_spec_u64_to_from_le_bytes();
        vstd::bytes::lemma_auto_spec_u32_to_from_le_bytes();
        assert(bytes@ =~= stat_bytes(ino as int, count_links(k0.dir@, ino as int)));
    }
    let ok = match &k.tasks[c] {
        Some(t) => copy_out(&t.inner.memory_set, &mut k.fm, st, &bytes),
        None => unreached(),
    };
    proof {
        lemma_wf_after_userwrite(k0, *k, c as int);
    }
    if ok {
        0
    } else {
        -1
    }
}

/// P5, fork then exec in the child: composing what `sys_fork` ensures
/// for the parent with what `sys_exec` ensures for every other task
/// shows the parent's address space and file table untouched (no
/// aliasing: the child's space is built from frames the parent never
/// owned).
pub proof fn lemma_fork_exec_parent_untouched(
    k0: Kernel,
    k1: Kernel,
    k2: Kernel,
    c: int,
    d: int,
)
    requires
        0 <= c < k0.tasks@.len(),
        k0.tasks@[c] is Some,
        // from sys_fork: the parent's space and file table keep their values
        k1.tasks@.len() >= k0.tasks@.len(),
        0 <= c < k1.tasks@.len(),
        k1.tasks@[c] is Some,
        k1.tasks@[c].unwrap().inner.memory_set == k0.tasks@[c].unwrap().inner.memory_set,
        k1.tasks@[c].unwrap().inner.fd_table == k0.tasks@[c].unwrap().inner.fd_table,
        // from sys_exec run by the child: every task but the child keeps its slot
        d != c,
        k2.tasks@.len() == k1.tasks@.len(),
        forall|q: int| 0 <= q < k1.tasks@.len() && q != d ==> k2.tasks@[q] == k1.tasks@[q],
    ensures
        k2.tasks@[c].unwrap().inner.memory_set == k0.tasks@[c].unwrap().inner.memory_set,
        k2.tasks@[c].unwrap().inner.fd_table == k0.tasks@[c].unwrap().inner.fd_table,
{
}

/// P7, a grown heap shrunk back: growing the break by one page and
/// shrinking it by the same amount restores the break and the heap
/// region exactly (one page was mapped and exactly that page was
/// unmapped).  The hypotheses are what two successful
/// `change_program_brk` calls ensure.
pub proof fn lemma_sbrk_round_trip(
    regions0: Seq<(int, int, u8)>,
    regions1: Seq<(int, int, u8)>,
    regions2: Seq<(int, int, u8)>,
    i: int,
    hv: int,
    ce0: int,
    ce1: int,
    perm: u8,
    brk0: int,
    brk1: int,
    brk2: int,
    delta: int,
)
    requires
        0 <= i < regions0.len(),
        regions0[i] == (hv, ce0, perm),
        brk1 == brk0 + delta,
        brk2 == brk1 - delta,
        regions1 == regions0.update(i, (hv, ce1, perm)),
        regions2 == regions1.update(i, (hv, ce0, perm)),
    ensures
        brk2 == brk0,
        regions2 == regions0,
        ce1 == ce0 + 1 ==> regions2[i].1 + 1 == regions1[i].1,
{
    assert(regions2 =~= regions0);
}

} // verus!
