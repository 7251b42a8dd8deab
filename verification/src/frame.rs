//! Physical page frames: contents and allocation.
//!
//! The machine's frames are modelled by value: `mem[p]` holds the bytes of
//! frame `p`.  Frame `TRAMPOLINE_PPN` is reserved at boot for the trampoline
//! code and is never handed to a task.  Allocation hands out recycled frames
//! first and fresh frames up to the machine's capacity after that; a freshly
//! allocated frame is zeroed and was owned by nobody before.
use vstd::prelude::*;
use vstd::set_lib::{lemma_int_range, lemma_len_subset, set_int_range};

use crate::config::PAGE_SIZE;

verus! {

/// The physical page-frame pool: frame contents plus the free list.
pub struct FrameManager {
    /// Byte contents of every frame brought up so far; the index is the
    /// physical page number.
    pub mem: Vec<Vec<u8>>,
    /// Recycled frames, available for allocation.
    pub free: Vec<usize>,
    /// Total frames the machine has.
    pub cap: usize,
}

/// A page of zeroes.
pub open spec fn zero_page() -> Seq<u8> {
    Seq::new(PAGE_SIZE as nat, |i: int| 0u8)
}

impl FrameManager {
    /// Frame `p` is on the free list.
    pub open spec fn is_free(self, p: int) -> bool {
        exists|i: int| 0 <= i < self.free@.len() && self.free@[i] as int == p
    }

    /// The frames currently owned by some holder (a task's address space):
    /// brought up, not the reserved trampoline frame, and not free.
    pub open spec fn allocated(self) -> Set<int> {
        Set::new(|p: int| 1 <= p < self.mem@.len() && !self.is_free(p))
    }

    /// Frames still available for allocation.
    pub open spec fn avail(self) -> int {
        self.free@.len() + self.cap - self.mem@.len()
    }

    /// Bytes of frame `p`.
    pub open spec fn frame(self, p: int) -> Seq<u8> {
        self.mem@[p]@
    }

    /// Well-formed pool: every frame is one page, the free list names
    /// distinct, non-reserved, brought-up frames.
    pub open spec fn wf(self) -> bool {
        &&& 1 <= self.mem@.len() <= self.cap
        &&& forall|p: int| 0 <= p < self.mem@.len() ==> (#[trigger] self.mem@[p])@.len()
            == PAGE_SIZE
        &&& forall|i: int| 0 <= i < self.free@.len() ==> 1 <= #[trigger] self.free@[i]
            < self.mem@.len()
        &&& forall|i: int, j: int|
            0 <= i < j < self.free@.len() ==> self.free@[i] != self.free@[j]
    }

    /// Two pools with the same free list and the same number of frames
    /// brought up own the same frames.
    pub proof fn lemma_allocated_congruence(a: FrameManager, b: FrameManager)
        requires
            a.free@ == b.free@,
            a.mem@.len() == b.mem@.len(),
        ensures
            a.allocated() == b.allocated(),
    {
        assert forall|q: int| a.allocated().contains(q) implies b.allocated().contains(q) by {
            if b.is_free(q) {
                let i = choose|i: int| 0 <= i < b.free@.len() && b.free@[i] as int == q;
                assert(a.free@[i] as int == q);
            }
        }
        assert forall|q: int| b.allocated().contains(q) implies a.allocated().contains(q) by {
            if a.is_free(q) {
                let i = choose|i: int| 0 <= i < a.free@.len() && a.free@[i] as int == q;
                assert(b.free@[i] as int == q);
            }
        }
        assert(a.allocated() =~= b.allocated());
    }

    /// Bring up a machine with `cap` frames; frame 0 is reserved for the
    /// trampoline, everything else is yet to be handed out.
    pub fn new(cap: usize) -> (fm: FrameManager)
        requires
            cap >= 1,
        ensures
            fm.wf(),
            fm.cap == cap,
            fm.allocated() =~= Set::<int>::empty(),
            fm.avail() == cap - 1,
    {
        let mut mem: Vec<Vec<u8>> = Vec::new();
        mem.push(fresh_zero_page());
        FrameManager { mem, free: Vec::new(), cap }
    }

    /// Allocate one frame: fails exactly when the machine is out of frames;
    /// on success the frame is zeroed, was owned by nobody, and every other
    /// frame keeps its contents.
    pub fn alloc_frame(&mut self) -> (r: Option<usize>)
        requires
            old(self).wf(),
        ensures
            final(self).wf(),
            final(self).cap == old(self).cap,
            old(self).avail() == 0 ==> {
                &&& r is None
                &&& final(self).free@ == old(self).free@
                &&& final(self).mem@ == old(self).mem@
                &&& final(self).allocated() == old(self).allocated()
                &&& final(self).avail() == old(self).avail()
            },
            old(self).avail() > 0 ==> {
                &&& r is Some
                &&& 1 <= r.unwrap() < final(self).mem@.len()
                &&& !old(self).allocated().contains(r.unwrap() as int)
                &&& final(self).allocated() == old(self).allocated().insert(r.unwrap() as int)
                &&& final(self).avail() == old(self).avail() - 1
                &&& final(self).frame(r.unwrap() as int) == zero_page()
                &&& final(self).mem@.len() >= old(self).mem@.len()
                &&& forall|q: int|
                    0 <= q < old(self).mem@.len() && q != r.unwrap() as int
                        ==> final(self).frame(q) == old(self).frame(q)
            },
    {
        let ghost pre = *self;
        match self.free.pop() {
            Some(p) => {
                self.mem.set(p, fresh_zero_page());
                proof {
                    assert forall|q: int| pre.allocated().insert(p as int).contains(q)
                        implies self.allocated().contains(q) by {
                        if q != p as int {
                            assert(!pre.is_free(q));
                            if self.is_free(q) {
                                let i = choose|i: int|
                                    0 <= i < self.free@.len() && self.free@[i] as int == q;
                                assert(pre.free@[i] as int == q);
                            }
                        }
                    }
                    assert forall|q: int| self.allocated().contains(q)
                        implies pre.allocated().insert(p as int).contains(q) by {
                        if q != p as int {
                            if pre.is_free(q) {
                                let i = choose|i: int|
                                    0 <= i < pre.free@.len() && pre.free@[i] as int == q;
                                assert(i < pre.free@.len() - 1);
                                assert(self.free@[i] as int == q);
                            }
                        } else {
                            assert(!self.is_free(q));
                        }
                    }
                    assert(self.allocated() =~= pre.allocated().insert(p as int));
                    assert(!pre.allocated().contains(p as int));
                }
                Some(p)
            },
            None => {
                if self.mem.len() < self.cap {
                    let p = self.mem.len();
                    self.mem.push(fresh_zero_page());
                    proof {
                        assert(self.free@ == pre.free@);
                        assert(!pre.is_free(p as int));
                        assert(self.allocated() =~= pre.allocated().insert(p as int));
                    }
                    Some(p)
                } else {
                    proof {
                        FrameManager::lemma_allocated_congruence(*self, pre);
                    }
                    None
                }
            },
        }
    }

    /// Return frame `p` to the pool; its contents stay in place but it is
    /// owned by nobody afterwards.
    pub fn dealloc_frame(&mut self, p: usize)
        requires
            old(self).wf(),
            old(self).allocated().contains(p as int),
        ensures
            final(self).wf(),
            final(self).cap == old(self).cap,
            final(self).mem@ == old(self).mem@,
            final(self).allocated() == old(self).allocated().remove(p as int),
            final(self).avail() == old(self).avail() + 1,
    {
        let ghost pre = *self;
        self.free.push(p);
        proof {
            assert forall|q: int| self.allocated().contains(q)
                implies pre.allocated().remove(p as int).contains(q) by {
                if pre.is_free(q) {
                    let i = choose|i: int|
                        0 <= i < pre.free@.len() && pre.free@[i] as int == q;
                    assert(self.free@[i] as int == q);
                }
                assert(self.free@[self.free@.len() - 1] as int == p as int);
            }
            assert forall|q: int| pre.allocated().remove(p as int).contains(q)
                implies self.allocated().contains(q) by {
                if self.is_free(q) {
                    let i = choose|i: int|
                        0 <= i < self.free@.len() && self.free@[i] as int == q;
                    assert(i < self.free@.len() - 1);
                    assert(pre.free@[i] as int == q);
                }
            }
            assert(self.allocated() =~= pre.allocated().remove(p as int));
        }
    }

    /// The free list is shorter than the number of frames brought up: its
    /// entries are distinct frame numbers in `[1, mem.len())`.
    pub proof fn lemma_free_len_bound(self)
        requires
            self.wf(),
        ensures
            self.free@.len() < self.mem@.len(),
    {
        let s = self.free@.map_values(|x: usize| x as int);
        assert(s.no_duplicates());
        s.unique_seq_to_set();
        assert(s.to_set().subset_of(set_int_range(1, self.mem@.len() as int))) by {
            assert forall|x: int| s.to_set().contains(x)
                implies set_int_range(1, self.mem@.len() as int).contains(x) by {
                let i = choose|i: int| 0 <= i < s.len() && s[i] == x;
                assert(self.free@[i] as int == x);
            }
        }
        lemma_int_range(1, self.mem@.len() as int);
        lemma_len_subset(s.to_set(), set_int_range(1, self.mem@.len() as int));
    }

    /// How many frames are still available for allocation.
    pub fn avail_frames(&self) -> (n: usize)
        requires
            self.wf(),
        ensures
            n == self.avail(),
    {
        proof {
            self.lemma_free_len_bound();
        }
        self.free.len() + (self.cap - self.mem.len())
    }

    /// Copy the contents of frame `src` into frame `dst`.
    pub fn clone_frame(&mut self, src: usize, dst: usize)
        requires
            old(self).wf(),
            src < old(self).mem@.len(),
            dst < old(self).mem@.len(),
            src != dst,
        ensures
            final(self).wf(),
            final(self).cap == old(self).cap,
            final(self).free@ == old(self).free@,
            final(self).mem@.len() == old(self).mem@.len(),
            final(self).allocated() == old(self).allocated(),
            final(self).avail() == old(self).avail(),
            final(self).frame(dst as int) == old(self).frame(src as int),
            forall|q: int|
                0 <= q < old(self).mem@.len() && q != dst as int
                    ==> final(self).frame(q) == old(self).frame(q),
    {
        let ghost pre = *self;
        let mut off: usize = 0;
        while off < PAGE_SIZE
            invariant
                pre.wf(),
                self.wf(),
                off <= PAGE_SIZE,
                src < self.mem@.len(),
                dst < self.mem@.len(),
                src != dst,
                self.cap == pre.cap,
                self.free@ == pre.free@,
                self.mem@.len() == pre.mem@.len(),
                forall|q: int|
                    0 <= q < pre.mem@.len() && q != dst as int
                        ==> self.frame(q) == pre.frame(q),
                forall|k: int| 0 <= k < off ==> self.frame(dst as int)[k] == pre.frame(
                    src as int,
                )[k],
            decreases PAGE_SIZE - off,
        {
            let b = self.read_byte(src, off);
            self.write_byte(dst, off, b);
            off += 1;
        }
        proof {
            assert(self.frame(dst as int) =~= pre.frame(src as int));
            FrameManager::lemma_allocated_congruence(*self, pre);
        }
    }

    /// Read one byte of frame `p`.
    pub fn read_byte(&self, p: usize, off: usize) -> (b: u8)
        requires
            self.wf(),
            p < self.mem@.len(),
            off < PAGE_SIZE,
        ensures
            b == self.frame(p as int)[off as int],
    {
        self.mem[p][off]
    }

    /// Write one byte of frame `p`; every other byte of memory is unchanged,
    /// and ownership does not move.
    pub fn write_byte(&mut self, p: usize, off: usize, b: u8)
        requires
            old(self).wf(),
            p < old(self).mem@.len(),
            off < PAGE_SIZE,
        ensures
            final(self).wf(),
            final(self).cap == old(self).cap,
            final(self).free@ == old(self).free@,
            final(self).mem@.len() == old(self).mem@.len(),
            final(self).allocated() == old(self).allocated(),
            final(self).avail() == old(self).avail(),
            final(self).frame(p as int) == old(self).frame(p as int).update(off as int, b),
            forall|q: int|
                0 <= q < old(self).mem@.len() && q != p as int
                    ==> final(self).frame(q) == old(self).frame(q),
    {
        let ghost pre = *self;
        let fr = &mut self.mem[p];
        fr.set(off, b);
        proof {
            FrameManager::lemma_allocated_congruence(*self, pre);
        }
    }
}

/// A freshly zeroed page of bytes.
fn fresh_zero_page() -> (v: Vec<u8>)
    ensures
        v@ == zero_page(),
{
    let mut v: Vec<u8> = Vec::new();
    let mut i: usize = 0;
    while i < PAGE_SIZE
        invariant
            i <= PAGE_SIZE,
            v@.len() == i,
            forall|k: int| 0 <= k < i ==> v@[k] == 0u8,
        decreases PAGE_SIZE - i,
    {
        v.push(0u8);
        i += 1;
    }
    proof {
        assert(v@ =~= zero_page());
    }
    v
}

} // verus!
