//! Syscall address-translation layer: resolves user-space pointers and
//! buffers through a task's page table so kernel code can read and write
//! them safely.
//!
//! Policy for scalars that straddle a page boundary: every access goes
//! through the byte-granular path, so a scalar is split across the two
//! physical ranges transparently (it is never rejected for crossing).
//! A failed resolution (unmapped or non-user page) is reported to the
//! caller, never a kernel fault, and a failed write changes nothing.
use vstd::prelude::*;

use crate::config::{PAGE_SIZE, PTE_R, PTE_U, PTE_V, PTE_X, STR_MAX_LEN};
use crate::frame::FrameManager;
use crate::memory_set::MemorySet;

verus! {

/// Virtual byte address `a` resolves to a user-accessible byte.
pub open spec fn user_ok(ms: MemorySet, a: int) -> bool {
    ms.user_mapped(a / PAGE_SIZE as int)
}

/// The physical frame behind user byte `a`.
pub open spec fn user_frame(ms: MemorySet, a: int) -> int {
    ms.ppn_of(a / PAGE_SIZE as int)
}

/// The in-frame offset of user byte `a`.
pub open spec fn user_off(a: int) -> int {
    a % PAGE_SIZE as int
}

/// The byte a task sees at user address `a`.
pub open spec fn user_byte(ms: MemorySet, fm: FrameManager, a: int) -> u8 {
    fm.frame(user_frame(ms, a))[user_off(a)]
}

/// Every byte of `[va, va + len)` resolves to a user-accessible byte.
pub open spec fn range_ok(ms: MemorySet, va: int, len: int) -> bool {
    forall|a: int| va <= a < va + len ==> user_ok(ms, a)
}

/// A user-accessible byte is backed by a frame the space owns.
pub proof fn lemma_user_frame_owned(ms: MemorySet, fm: FrameManager, a: int)
    requires
        ms.wf_in(fm),
        0 <= a,
        user_ok(ms, a),
    ensures
        ms.owned().contains(user_frame(ms, a)),
        fm.allocated().contains(user_frame(ms, a)),
{
    let v = a / PAGE_SIZE as int;
    assert(((PTE_V | PTE_R | PTE_X) as u8 & PTE_U) == 0) by (bit_vector);
    assert(v != crate::config::TRAMPOLINE_VPN);
    if !(exists|i: int| 0 <= i < ms.areas@.len() && #[trigger] ms.in_area(i, v)) {
        assert forall|i: int| 0 <= i < ms.areas@.len() implies !ms.in_area(i, v) by {}
        assert(ms.pt.slots@[v] is None);
        assert(false);
    }
    let i = choose|i: int| 0 <= i < ms.areas@.len() && #[trigger] ms.in_area(i, v);
    assert(ms.areas@[i].frames@[v - ms.areas@[i].start_vpn] as int == user_frame(ms, a));
}

/// Distinct user addresses resolve to distinct physical bytes.
pub proof fn lemma_user_loc_injective(ms: MemorySet, fm: FrameManager, a1: int, a2: int)
    requires
        ms.wf_in(fm),
        0 <= a1,
        0 <= a2,
        a1 != a2,
        user_ok(ms, a1),
        user_ok(ms, a2),
    ensures
        user_frame(ms, a1) != user_frame(ms, a2) || user_off(a1) != user_off(a2),
{
    if user_off(a1) == user_off(a2) {
        let v1 = a1 / PAGE_SIZE as int;
        let v2 = a2 / PAGE_SIZE as int;
        assert(v1 != v2) by (nonlinear_arith)
            requires
                a1 != a2,
                0 <= a1,
                0 <= a2,
                a1 % PAGE_SIZE as int == a2 % PAGE_SIZE as int,
                v1 == a1 / PAGE_SIZE as int,
                v2 == a2 / PAGE_SIZE as int,
                PAGE_SIZE > 0,
        ;
        assert(((PTE_V | PTE_R | PTE_X) as u8 & PTE_U) == 0) by (bit_vector);
        assert(v1 != crate::config::TRAMPOLINE_VPN && v2 != crate::config::TRAMPOLINE_VPN);
        if !(exists|i: int| 0 <= i < ms.areas@.len() && #[trigger] ms.in_area(i, v1)) {
            assert forall|i: int| 0 <= i < ms.areas@.len() implies !ms.in_area(i, v1) by {}
            assert(ms.pt.slots@[v1] is None);
            assert(false);
        }
        if !(exists|i: int| 0 <= i < ms.areas@.len() && #[trigger] ms.in_area(i, v2)) {
            assert forall|i: int| 0 <= i < ms.areas@.len() implies !ms.in_area(i, v2) by {}
            assert(ms.pt.slots@[v2] is None);
            assert(false);
        }
        let i1 = choose|i: int| 0 <= i < ms.areas@.len() && #[trigger] ms.in_area(i, v1);
        let i2 = choose|i: int| 0 <= i < ms.areas@.len() && #[trigger] ms.in_area(i, v2);
        assert(ms.areas@[i1].frames@[v1 - ms.areas@[i1].start_vpn] as int == user_frame(
            ms,
            a1,
        ));
        assert(ms.areas@[i2].frames@[v2 - ms.areas@[i2].start_vpn] as int == user_frame(
            ms,
            a2,
        ));
    }
}

/// Copy `data` into the task's memory at user address `va`.  Succeeds
/// exactly when every byte of the range resolves; on failure nothing is
/// written; on success exactly those bytes change, whether or not the
/// buffer spans page boundaries.
#[verifier::loop_isolation(false)]
pub fn copy_out(ms: &MemorySet, fm: &mut FrameManager, va: usize, data: &Vec<u8>) -> (r: bool)
    requires
        ms.wf_in(*old(fm)),
        old(fm).wf(),
        va + data@.len() <= usize::MAX,
    ensures
        final(fm).wf(),
        final(fm).cap == old(fm).cap,
        final(fm).free@ == old(fm).free@,
        final(fm).mem@.len() == old(fm).mem@.len(),
        final(fm).allocated() == old(fm).allocated(),
        r == range_ok(*ms, va as int, data@.len() as int),
        !r ==> final(fm).mem@ == old(fm).mem@,
        r ==> {
            &&& forall|a: int|
                va <= a < va + data@.len() ==> user_byte(*ms, *final(fm), a) == data@[a - va]
            &&& forall|a: int|
                0 <= a && user_ok(*ms, a) && !(va <= a < va + data@.len()) ==> user_byte(
                    *ms,
                    *final(fm),
                    a,
                ) == user_byte(*ms, *old(fm), a)
            &&& forall|q: int|
                0 <= q < old(fm).mem@.len() && !ms.owned().contains(q) ==> final(fm).frame(q)
                    == old(fm).frame(q)
        },
    {
        let ghost pre_fm = *fm;
        let len = data.len();
        let mut off: usize = 0;
        while off < len
            invariant
                off <= len,
                *fm == pre_fm,
                forall|a: int| va <= a < va + off ==> user_ok(*ms, a),
            decreases len - off,
        {
            let vpn = (va + off) / PAGE_SIZE;
            match ms.translate(vpn) {
                Some(e) => {
                    if e.flags & PTE_U == 0 {
                        proof {
                            assert(!user_ok(*ms, (va + off) as int));
                        }
                        return false;
                    }
                },
                None => {
                    proof {
                        assert(!user_ok(*ms, (va + off) as int));
                    }
                    return false;
                },
            }
            off += 1;
        }
        let mut off: usize = 0;
        while off < len
            invariant
                off <= len,
                range_ok(*ms, va as int, len as int),
                fm.wf(),
                fm.cap == pre_fm.cap,
                fm.free@ == pre_fm.free@,
                fm.mem@.len() == pre_fm.mem@.len(),
                ms.wf_in(*fm),
                forall|a: int|
                    va <= a < va + off ==> user_byte(*ms, *fm, a) == data@[a - va],
                forall|a: int|
                    0 <= a && user_ok(*ms, a) && !(va <= a < va + off) ==> user_byte(
                        *ms,
                        *fm,
                        a,
                    ) == user_byte(*ms, pre_fm, a),
                forall|q: int|
                    0 <= q < pre_fm.mem@.len() && !ms.owned().contains(q) ==> fm.frame(q)
                        == pre_fm.frame(q),
            decreases len - off,
        {
            let ghost it_fm = *fm;
            let a = va + off;
            proof {
                assert(user_ok(*ms, a as int));
            }
            let e = ms.translate(a / PAGE_SIZE).unwrap();
            proof {
                lemma_user_frame_owned(*ms, *fm, a as int);
                assert(user_frame(*ms, a as int) == e.ppn as int);
                assert(user_off(a as int) == a as int % PAGE_SIZE as int);
            }
            fm.write_byte(e.ppn, a % PAGE_SIZE, data[off]);
            proof {
                FrameManager::lemma_allocated_congruence(*fm, it_fm);
                assert(fm.frame(e.ppn as int)[a as int % PAGE_SIZE as int] == data@[
                    off as int]);
                assert(user_byte(*ms, *fm, a as int) == data@[off as int]);
                assert forall|a2: int|
                    0 <= a2 && user_ok(*ms, a2) && a2 != a as int implies user_byte(
                    *ms,
                    *fm,
                    a2,
                ) == user_byte(*ms, it_fm, a2) by {
                    lemma_user_frame_owned(*ms, it_fm, a2);
                    lemma_user_loc_injective(*ms, it_fm, a2, a as int);
                }
                assert forall|a2: int| va <= a2 < va + off implies user_byte(*ms, *fm, a2)
                    == data@[a2 - va] by {
                    assert(user_ok(*ms, a2));
                    assert(user_byte(*ms, it_fm, a2) == data@[a2 - va]);
                }
            }
            off += 1;
        }
        proof {
            FrameManager::lemma_allocated_congruence(*fm, pre_fm);
        }
        true
    }

/// Read `len` bytes of the task's memory at user address `va`.  Succeeds
/// exactly when every byte of the range resolves.
#[verifier::loop_isolation(false)]
pub fn copy_in(ms: &MemorySet, fm: &FrameManager, va: usize, len: usize) -> (r: Option<Vec<u8>>)
    requires
        ms.wf_in(*fm),
        fm.wf(),
        va + len <= usize::MAX,
    ensures
        r is Some <==> range_ok(*ms, va as int, len as int),
        r is Some ==> {
            &&& r.unwrap()@.len() == len
            &&& forall|j: int|
                0 <= j < len ==> r.unwrap()@[j] == user_byte(*ms, *fm, va + j)
        },
{
    let mut out: Vec<u8> = Vec::new();
    let mut off: usize = 0;
    while off < len
        invariant
            off <= len,
            out@.len() == off,
            forall|a: int| va <= a < va + off ==> user_ok(*ms, a),
            forall|j: int| 0 <= j < off ==> out@[j] == user_byte(*ms, *fm, va + j),
        decreases len - off,
    {
        let a = va + off;
        let e = match ms.translate(a / PAGE_SIZE) {
            Some(e) => e,
            None => {
                proof {
                    assert(!user_ok(*ms, a as int));
                }
                return None;
            },
        };
        if e.flags & PTE_U == 0 {
            proof {
                assert(!user_ok(*ms, a as int));
            }
            return None;
        }
        proof {
            lemma_user_frame_owned(*ms, *fm, a as int);
            assert(user_frame(*ms, a as int) == e.ppn as int);
        }
        let b = fm.read_byte(e.ppn, a % PAGE_SIZE);
        out.push(b);
        off += 1;
    }
    Some(out)
}

/// There is a null-terminated string of length `n` at user address `va`.
pub open spec fn is_cstr_at(ms: MemorySet, fm: FrameManager, va: int, n: int) -> bool {
    &&& n >= 0
    &&& forall|a: int| va <= a <= va + n ==> user_ok(ms, a)
    &&& forall|a: int| va <= a < va + n ==> user_byte(ms, fm, a) != 0
    &&& user_byte(ms, fm, va + n) == 0
}

/// A null-terminated string lies within the guard at `va`.
pub open spec fn has_cstr(ms: MemorySet, fm: FrameManager, va: int) -> bool {
    exists|n: int| 0 <= n <= STR_MAX_LEN && is_cstr_at(ms, fm, va, n)
}

/// Length of the string at `va`: the terminator is the first zero byte,
/// so the length is unique (see `lemma_cstr_unique`).
pub open spec fn cstr_len(ms: MemorySet, fm: FrameManager, va: int) -> int {
    choose|n: int| 0 <= n <= STR_MAX_LEN && is_cstr_at(ms, fm, va, n)
}

/// The bytes of the string at `va`, without the terminator.
pub open spec fn cstr_bytes(ms: MemorySet, fm: FrameManager, va: int) -> Seq<u8> {
    Seq::new(cstr_len(ms, fm, va) as nat, |j: int| user_byte(ms, fm, va + j))
}

/// Only one length fits a null-terminated string: the terminator is the
/// first zero byte.
pub proof fn lemma_cstr_unique(ms: MemorySet, fm: FrameManager, va: int, n: int)
    requires
        0 <= n <= STR_MAX_LEN,
        is_cstr_at(ms, fm, va, n),
    ensures
        has_cstr(ms, fm, va),
        cstr_len(ms, fm, va) == n,
        cstr_bytes(ms, fm, va) == Seq::new(n as nat, |j: int| user_byte(ms, fm, va + j)),
{
    assert(has_cstr(ms, fm, va));
    let m = cstr_len(ms, fm, va);
    assert(0 <= m <= STR_MAX_LEN && is_cstr_at(ms, fm, va, m));
    if m < n {
        assert(user_byte(ms, fm, va + m) == 0);
        assert(user_byte(ms, fm, va + m) != 0);
    } else if m > n {
        assert(user_byte(ms, fm, va + n) == 0);
        assert(user_byte(ms, fm, va + n) != 0);
    }
    assert(cstr_bytes(ms, fm, va) =~= Seq::new(n as nat, |j: int| user_byte(ms, fm, va + j)));
}

/// Walk a null-terminated user string byte by byte, across pages, up to
/// `STR_MAX_LEN` bytes.  Returns its bytes without the terminator, or
/// nothing when a byte fails to resolve or no terminator appears within
/// the guard.
#[verifier::loop_isolation(false)]
pub fn translated_str(ms: &MemorySet, fm: &FrameManager, va: usize) -> (r: Option<Vec<u8>>)
    requires
        ms.wf_in(*fm),
        fm.wf(),
        va + STR_MAX_LEN + 1 <= usize::MAX,
    ensures
        r is Some ==> {
            &&& r.unwrap()@.len() <= STR_MAX_LEN
            &&& is_cstr_at(*ms, *fm, va as int, r.unwrap()@.len() as int)
            &&& forall|j: int|
                0 <= j < r.unwrap()@.len() ==> r.unwrap()@[j] == user_byte(*ms, *fm, va + j)
            &&& has_cstr(*ms, *fm, va as int)
            &&& r.unwrap()@ == cstr_bytes(*ms, *fm, va as int)
        },
        r is None ==> forall|n: int|
            0 <= n <= STR_MAX_LEN ==> !is_cstr_at(*ms, *fm, va as int, n),
        r is None ==> !has_cstr(*ms, *fm, va as int),
        (r is Some) == has_cstr(*ms, *fm, va as int),
{
    let mut out: Vec<u8> = Vec::new();
    let mut n: usize = 0;
    while n <= STR_MAX_LEN
        invariant
            n <= STR_MAX_LEN + 1,
            out@.len() == n,
            forall|a: int| va <= a < va + n ==> user_ok(*ms, a),
            forall|a: int| va <= a < va + n ==> user_byte(*ms, *fm, a) != 0,
            forall|j: int| 0 <= j < n ==> out@[j] == user_byte(*ms, *fm, va + j),
        decreases STR_MAX_LEN + 1 - n,
    {
        let a = va + n;
        let e = match ms.translate(a / PAGE_SIZE) {
            Some(e) => e,
            None => {
                proof {
                    assert forall|m: int| 0 <= m <= STR_MAX_LEN implies !is_cstr_at(
                        *ms,
                        *fm,
                        va as int,
                        m,
                    ) by {
                        if m >= n {
                            assert(!user_ok(*ms, va + n));
                        } else {
                            assert(user_byte(*ms, *fm, va + m) != 0);
                        }
                    }
                }
                return None;
            },
        };
        if e.flags & PTE_U == 0 {
            proof {
                assert forall|m: int| 0 <= m <= STR_MAX_LEN implies !is_cstr_at(
                    *ms,
                    *fm,
                    va as int,
                    m,
                ) by {
                    if m >= n {
                        assert(!user_ok(*ms, va + n));
                    } else {
                        assert(user_byte(*ms, *fm, va + m) != 0);
                    }
                }
            }
            return None;
        }
        proof {
            lemma_user_frame_owned(*ms, *fm, a as int);
        }
        let b = fm.read_byte(e.ppn, a % PAGE_SIZE);
        if b == 0 {
            proof {
                lemma_cstr_unique(*ms, *fm, va as int, n as int);
                assert(out@ =~= cstr_bytes(*ms, *fm, va as int));
            }
            return Some(out);
        }
        out.push(b);
        n += 1;
    }
    proof {
        assert forall|m: int| 0 <= m <= STR_MAX_LEN implies !is_cstr_at(
            *ms,
            *fm,
            va as int,
            m,
        ) by {
            assert(user_byte(*ms, *fm, va + m) != 0);
        }
    }
    None
}

/// A buffer write through the translation layer that spans a page
/// boundary leaves byte-identical content to a non-spanning write of the
/// same data at a non-crossing address: reading either range back yields
/// exactly the bytes written.  The hypotheses are what two successful
/// `copy_out` calls ensure.
pub proof fn lemma_cross_page_write_byte_identical(
    ms1: MemorySet,
    fm1: FrameManager,
    va1: int,
    ms2: MemorySet,
    fm2: FrameManager,
    va2: int,
    data: Seq<u8>,
)
    requires
        forall|a: int| va1 <= a < va1 + data.len() ==> user_byte(ms1, fm1, a) == data[a - va1],
        forall|a: int| va2 <= a < va2 + data.len() ==> user_byte(ms2, fm2, a) == data[a - va2],
    ensures
        forall|j: int|
            #![trigger data[j]]
            0 <= j < data.len() ==> user_byte(ms1, fm1, va1 + j) == user_byte(
                ms2,
                fm2,
                va2 + j,
            ),
{
}

} // verus!
