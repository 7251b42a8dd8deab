//! Stride scheduling: the `Stride` accumulator, its wraparound-aware
//! comparison, and the proportional-share bound of the min-stride rule.
use vstd::prelude::*;

use crate::config::BIG_STRIDE;

verus! {

/// Accumulated virtual time of a task; wraps modulo the integer width.
#[derive(Copy, Clone, Debug, PartialEq, Eq, Structural)]
pub struct Stride(pub u64);

/// Wraparound-aware "runs no later than": `a` and `b` compare by ordinary
/// numeric order unless their difference exceeds `BIG_STRIDE / 2`, in which
/// case the apparently larger one has wrapped and is treated as smaller.
pub open spec fn stride_precedes(a: u64, b: u64) -> bool {
    if a == b {
        true
    } else if a < b {
        b - a <= BIG_STRIDE / 2
    } else {
        a - b > BIG_STRIDE / 2
    }
}

impl Stride {
    /// Make a stride accumulator starting at `t`.
    pub fn new(t: u64) -> (s: Stride)
        ensures
            s.0 == t,
    {
        Stride(t)
    }

    /// Wraparound-aware comparison used to select the next task:
    /// true when `self` is no further along than `other`.
    pub fn precedes(&self, other: &Stride) -> (r: bool)
        ensures
            r == stride_precedes(self.0, other.0),
    {
        if self.0 == other.0 {
            true
        } else if self.0 < other.0 {
            other.0 - self.0 <= BIG_STRIDE / 2
        } else {
            self.0 - other.0 > BIG_STRIDE / 2
        }
    }
}

/// The comparison is wraparound-safe: whenever two stride values differ by
/// no more than `BIG_STRIDE / 2`, the wraparound-aware comparison and
/// ordinary numeric comparison agree.
pub proof fn lemma_stride_cmp_wraparound_safe(a: u64, b: u64)
    requires
        a <= b ==> b - a <= BIG_STRIDE / 2,
        b <= a ==> a - b <= BIG_STRIDE / 2,
    ensures
        stride_precedes(a, b) <==> a <= b,
{
}

/// Number of dispatches of the first task in a run of scheduler choices
/// (`true` means the first task was dispatched).
pub open spec fn count_first(choices: Seq<bool>) -> int
    decreases choices.len(),
{
    if choices.len() == 0 {
        0
    } else {
        count_first(choices.drop_last()) + if choices.last() {
            1int
        } else {
            0int
        }
    }
}

/// Idealized (unwrapped) stride of the first task after a run: it grows by
/// `pass1` at each of its dispatches.
pub open spec fn stride1_after(choices: Seq<bool>, pass1: int) -> int {
    count_first(choices) * pass1
}

/// Idealized stride of the second task after a run.
pub open spec fn stride2_after(choices: Seq<bool>, pass2: int) -> int {
    (choices.len() - count_first(choices)) * pass2
}

/// A run obeys the min-stride rule when every choice dispatches a task whose
/// stride, at that moment, is no larger than the other task's.
pub open spec fn run_valid(choices: Seq<bool>, pass1: int, pass2: int) -> bool
    decreases choices.len(),
{
    if choices.len() == 0 {
        true
    } else {
        let prefix = choices.drop_last();
        run_valid(prefix, pass1, pass2) && if choices.last() {
            stride1_after(prefix, pass1) <= stride2_after(prefix, pass2)
        } else {
            stride2_after(prefix, pass2) <= stride1_after(prefix, pass1)
        }
    }
}

/// Proportional share of the min-stride rule: over any run of the scheduler
/// on two always-ready tasks, the weighted dispatch counts stay within one
/// pass of each other, `-pass2 <= n1 * pass1 - n2 * pass2 <= pass1`.  Since
/// `pass = BIG_STRIDE / priority`, the long-run dispatch ratio `n1 : n2`
/// converges to `priority1 : priority2`.
pub proof fn lemma_stride_proportional_share(choices: Seq<bool>, pass1: int, pass2: int)
    requires
        pass1 > 0,
        pass2 > 0,
        run_valid(choices, pass1, pass2),
    ensures
        -pass2 <= count_first(choices) * pass1 - (choices.len() - count_first(choices)) * pass2
            <= pass1,
    decreases choices.len(),
{
    if choices.len() == 0 {
        vstd::arithmetic::mul::lemma_mul_basics(pass1);
        vstd::arithmetic::mul::lemma_mul_basics(pass2);
        assert(count_first(choices) == 0);
        assert(count_first(choices) * pass1 == 0);
        assert((choices.len() - count_first(choices)) * pass2 == 0);
    } else {
        let prefix = choices.drop_last();
        lemma_stride_proportional_share(prefix, pass1, pass2);
        let n1 = count_first(prefix);
        let n2 = prefix.len() - n1;
        vstd::arithmetic::mul::lemma_mul_is_distributive_add_other_way(pass1, n1, 1);
        vstd::arithmetic::mul::lemma_mul_is_distributive_add_other_way(pass2, n2, 1);
        vstd::arithmetic::mul::lemma_mul_basics(pass1);
        vstd::arithmetic::mul::lemma_mul_basics(pass2);
        if choices.last() {
            assert(count_first(choices) == n1 + 1);
            assert(n1 * pass1 <= n2 * pass2);
            assert(count_first(choices) * pass1 == n1 * pass1 + pass1);
            assert(choices.len() - count_first(choices) == n2);
            assert((choices.len() - count_first(choices)) * pass2 == n2 * pass2);
            assert(count_first(choices) * pass1 - (choices.len() - count_first(choices))
                * pass2 == (n1 * pass1 - n2 * pass2) + pass1);
        } else {
            assert(count_first(choices) == n1);
            assert(n2 * pass2 <= n1 * pass1);
            assert(choices.len() - count_first(choices) == n2 + 1);
            assert((n2 + 1) * pass2 == n2 * pass2 + pass2);
            assert((choices.len() - count_first(choices)) * pass2 == n2 * pass2 + pass2);
            assert(count_first(choices) * pass1 - (choices.len() - count_first(choices))
                * pass2 == (n1 * pass1 - n2 * pass2) - pass2);
        }
    }
}

} // verus!
