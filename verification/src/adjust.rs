//! Instructions of AArch64 that move the stack pointer, as functions begin and end:
//! how far a run of them moves it.
use crate::compact::{whole, whole_at};
use vstd::prelude::*;

verus! {

/// The instruction at an offset.
pub open spec fn word_at(d: Seq<u8>, i: int) -> u32 {
    whole(d, i) as u32
}

/// Whether an instruction stores or loads a pair of registers at the stack pointer.
pub open spec fn is_pair(w: u32) -> bool {
    (w >> 22) & 0x2f8 == 0x2a0 && (w >> 5) & 0x1f == 0x1f
}

/// Whether an instruction adds a number to the stack pointer, or subtracts one.
pub open spec fn is_sum(w: u32) -> bool {
    (w >> 23) & 0x17f == 0x122 && w & 0x1f == 0x1f && (w >> 5) & 0x1f == 0x1f
}

/// The instruction that signs the return address.
pub const SIGN: u32 = 0xd503_237f;

/// Whether an instruction is one of those that functions begin and end with.
pub open spec fn adjusts(w: u32) -> bool {
    is_pair(w) || is_sum(w) || w == SIGN
}

/// How far from where the stack pointer was an instruction leaves it, or a register
/// that it stores or loads, at most.
pub open spec fn reach(w: u32) -> int {
    if is_pair(w) {
        0x400
    } else if is_sum(w) {
        ((w >> 10) & 0xfff) * (if (w >> 22) & 1 == 1 {
            0x1000int
        } else {
            1int
        })
    } else {
        0
    }
}

/// How far the run of such instructions that ends at an offset goes, at most.
pub open spec fn run(d: Seq<u8>, i: int) -> int
    decreases i + 4,
{
    if i < 0 || i + 4 > d.len() || !adjusts(word_at(d, i)) {
        0
    } else {
        reach(word_at(d, i)) + run(d, i - 4)
    }
}

/// Whether no run goes further than 31 bits hold.
pub open spec fn calm(d: Seq<u8>) -> bool {
    forall|i: int| 0 <= i && i + 4 <= d.len() ==> #[trigger] run(d, i) <= i32::MAX
}

fn reach_of(w: u32) -> (r: u64)
    ensures
        r == reach(w),
        r <= 0xfff_000,
{
    if (w >> 22) & 0x2f8 == 0x2a0 && (w >> 5) & 0x1f == 0x1f {
        0x400
    } else if (w >> 23) & 0x17f == 0x122 && w & 0x1f == 0x1f && (w >> 5) & 0x1f == 0x1f {
        let n: u32 = (w >> 10) & 0xfff;
        assert((w >> 10) & 0xfff <= 0xfff) by (bit_vector);
        if (w >> 22) & 1 == 1 {
            n as u64 * 0x1000
        } else {
            n as u64
        }
    } else {
        0
    }
}

fn is_adjusting(w: u32) -> (r: bool)
    ensures
        r == adjusts(w),
{
    ((w >> 22) & 0x2f8 == 0x2a0 && (w >> 5) & 0x1f == 0x1f) || ((w >> 23) & 0x17f == 0x122 && w & 0x1f == 0x1f && (w
        >> 5) & 0x1f == 0x1f) || w == SIGN
}

/// Whether no run of such instructions goes too far.
#[verifier::loop_isolation(false)]
pub fn is_calm(d: &[u8]) -> (r: bool)
    ensures
        r == calm(d@),
{
    let len: usize = d.len();
    if len < 4 {
        return true;
    }
    let last: usize = len - 4;
    // The runs that end four, three, two and one bytes before.
    let mut four: u64 = 0;
    let mut three: u64 = 0;
    let mut two: u64 = 0;
    let mut one: u64 = 0;
    let mut i: usize = 0;
    loop
        invariant
            i <= last,
            four == run(d@, i - 4),
            three == run(d@, i - 3),
            two == run(d@, i - 2),
            one == run(d@, i - 1),
            four <= i32::MAX,
            three <= i32::MAX,
            two <= i32::MAX,
            one <= i32::MAX,
            forall|k: int| 0 <= k < i ==> #[trigger] run(d@, k) <= i32::MAX,
        decreases last - i,
    {
        let w: u32 = whole_at(d, i);
        let now: u64 = if is_adjusting(w) {
            four + reach_of(w)
        } else {
            0
        };
        assert(now == run(d@, i as int));
        if now > 0x7fff_ffff {
            return false;
        }
        if i == last {
            return true;
        }
        four = three;
        three = two;
        two = one;
        one = now;
        i = i + 1;
    }
}

} // verus!
