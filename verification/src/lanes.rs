//! Vectors of `N` lanes, held as arrays, and the operations that work on all
//! lanes of a vector at once.
//!
//! Every operation says lane by lane what it returns.

use vstd::prelude::*;
use vstd::arithmetic::div_mod::{lemma_add_mod_noop, lemma_small_mod};

verus! {

/// The vector that holds `value` in every lane.
pub fn splat<T: Copy, const N: usize>(value: T) -> (out: [T; N])
    ensures
        forall|i: int| 0 <= i < N ==> #[trigger] out[i] == value,
{
    [value;N]
}

/// The vector whose first lanes are the bytes of `chunk` and whose other
/// lanes hold `filler`.
pub fn load<const N: usize>(chunk: &[u8], filler: u8) -> (out: [u8; N])
    requires
        chunk@.len() <= N,
    ensures
        forall|i: int|
            0 <= i < N ==> #[trigger] out[i] == if i < chunk@.len() {
                chunk@[i]
            } else {
                filler
            },
{
    let mut out = [filler;N];
    let len = chunk.len();
    for i in 0..len
        invariant
            len == chunk@.len(),
            len <= N,
            forall|j: int|
                0 <= j < N ==> out[j] == if j < i {
                    chunk@[j]
                } else {
                    filler
                },
    {
        out[i] = chunk[i];
    }
    out
}

/// Each lane of `a` shifted right by the same lane of `by`.
pub fn shr<const N: usize>(a: [u8; N], by: [u8; N]) -> (out: [u8; N])
    requires
        forall|i: int| 0 <= i < N ==> by[i] < 8,
    ensures
        forall|i: int| 0 <= i < N ==> #[trigger] out[i] == a[i] >> by[i],
{
    let mut out = [0u8;N];
    for i in 0..N
        invariant
            forall|j: int| 0 <= j < N ==> by[j] < 8,
            forall|j: int| 0 <= j < i ==> out[j] == a[j] >> by[j],
    {
        out[i] = a[i] >> by[i];
    }
    out
}

/// The sum of each pair of lanes, modulo 256.
pub fn wrapping_add<const N: usize>(a: [u8; N], b: [u8; N]) -> (out: [u8; N])
    ensures
        forall|i: int| 0 <= i < N ==> #[trigger] out[i] == a[i].wrapping_add(b[i]),
{
    let mut out = [0u8;N];
    for i in 0..N
        invariant
            forall|j: int| 0 <= j < i ==> out[j] == a[j].wrapping_add(b[j]),
    {
        out[i] = a[i].wrapping_add(b[i]);
    }
    out
}

/// The difference of each pair of lanes, modulo 256.
pub fn wrapping_sub<const N: usize>(a: [u8; N], b: [u8; N]) -> (out: [u8; N])
    ensures
        forall|i: int| 0 <= i < N ==> #[trigger] out[i] == a[i].wrapping_sub(b[i]),
{
    let mut out = [0u8;N];
    for i in 0..N
        invariant
            forall|j: int| 0 <= j < i ==> out[j] == a[j].wrapping_sub(b[j]),
    {
        out[i] = a[i].wrapping_sub(b[i]);
    }
    out
}

/// The bits that each pair of lanes has in common.
pub fn bitand<const N: usize>(a: [u8; N], b: [u8; N]) -> (out: [u8; N])
    ensures
        forall|i: int| 0 <= i < N ==> #[trigger] out[i] == a[i] & b[i],
{
    let mut out = [0u8;N];
    for i in 0..N
        invariant
            forall|j: int| 0 <= j < i ==> out[j] == a[j] & b[j],
    {
        out[i] = a[i] & b[i];
    }
    out
}

/// The bits that either lane of each pair has.
pub fn bitor<const N: usize>(a: [u8; N], b: [u8; N]) -> (out: [u8; N])
    ensures
        forall|i: int| 0 <= i < N ==> #[trigger] out[i] == a[i] | b[i],
{
    let mut out = [0u8;N];
    for i in 0..N
        invariant
            forall|j: int| 0 <= j < i ==> out[j] == a[j] | b[j],
    {
        out[i] = a[i] | b[i];
    }
    out
}

/// Each lane with every bit turned over.
pub fn not<const N: usize>(a: [u8; N]) -> (out: [u8; N])
    ensures
        forall|i: int| 0 <= i < N ==> #[trigger] out[i] == !a[i],
{
    let mut out = [0u8;N];
    for i in 0..N
        invariant
            forall|j: int| 0 <= j < i ==> out[j] == !a[j],
    {
        out[i] = !a[i];
    }
    out
}

/// The lanes in which `a` and `b` hold the same byte.
pub fn simd_eq<const N: usize>(a: [u8; N], b: [u8; N]) -> (out: [bool; N])
    ensures
        forall|i: int| 0 <= i < N ==> #[trigger] out[i] == (a[i] == b[i]),
{
    let mut out = [false;N];
    for i in 0..N
        invariant
            forall|j: int| 0 <= j < i ==> out[j] == (a[j] == b[j]),
    {
        out[i] = a[i] == b[i];
    }
    out
}

/// The lanes in which `a` holds less than `b`.
pub fn simd_lt<const N: usize>(a: [u8; N], b: [u8; N]) -> (out: [bool; N])
    ensures
        forall|i: int| 0 <= i < N ==> #[trigger] out[i] == (a[i] < b[i]),
{
    let mut out = [false;N];
    for i in 0..N
        invariant
            forall|j: int| 0 <= j < i ==> out[j] == (a[j] < b[j]),
    {
        out[i] = a[i] < b[i];
    }
    out
}

/// The lanes that both masks hold.
pub fn mask_and<const N: usize>(a: [bool; N], b: [bool; N]) -> (out: [bool; N])
    ensures
        forall|i: int| 0 <= i < N ==> #[trigger] out[i] == (a[i] && b[i]),
{
    let mut out = [false;N];
    for i in 0..N
        invariant
            forall|j: int| 0 <= j < i ==> out[j] == (a[j] && b[j]),
    {
        out[i] = a[i] && b[i];
    }
    out
}

/// The lanes that the mask does not hold.
pub fn mask_not<const N: usize>(a: [bool; N]) -> (out: [bool; N])
    ensures
        forall|i: int| 0 <= i < N ==> #[trigger] out[i] == !a[i],
{
    let mut out = [false;N];
    for i in 0..N
        invariant
            forall|j: int| 0 <= j < i ==> out[j] == !a[j],
    {
        out[i] = !a[i];
    }
    out
}

/// A mask as bytes: all bits set in the lanes it holds, none in the others.
pub fn mask_to_int<const N: usize>(mask: [bool; N]) -> (out: [u8; N])
    ensures
        forall|i: int|
            0 <= i < N ==> #[trigger] out[i] == if mask[i] {
                255u8
            } else {
                0u8
            },
{
    let mut out = [0u8;N];
    for i in 0..N
        invariant
            forall|j: int|
                0 <= j < N ==> out[j] == if j < i && mask[j] {
                    255u8
                } else {
                    0u8
                },
    {
        if mask[i] {
            out[i] = 255u8;
        }
    }
    out
}

/// Lane by lane, `yes` where the mask holds the lane and `no` where it does
/// not.
pub fn select<T: Copy, const N: usize>(mask: [bool; N], yes: [T; N], no: [T; N]) -> (out: [T; N])
    ensures
        forall|i: int|
            0 <= i < N ==> #[trigger] out[i] == if mask[i] {
                yes[i]
            } else {
                no[i]
            },
{
    let mut out = no;
    for i in 0..N
        invariant
            forall|j: int|
                0 <= j < i ==> out[j] == if mask[j] {
                    yes[j]
                } else {
                    no[j]
                },
    {
        out[i] = if mask[i] {
            yes[i]
        } else {
            no[i]
        };
    }
    out
}

/// The lane of `table` that each lane of `indices` names, and 0 where it
/// names none.
pub fn swizzle_dyn<const N: usize>(table: [u8; N], indices: [u8; N]) -> (out: [u8; N])
    ensures
        forall|i: int|
            0 <= i < N ==> #[trigger] out[i] == if indices[i] < N {
                table[indices[i] as int]
            } else {
                0u8
            },
{
    let mut out = [0u8;N];
    for i in 0..N
        invariant
            forall|j: int|
                0 <= j < N ==> out[j] == if j < i && indices[j] < N {
                    table[indices[j] as int]
                } else {
                    0u8
                },
    {
        let index = indices[i] as usize;
        if index < N {
            out[i] = table[index];
        }
    }
    out
}

/// The lanes moved `OFFSET` places towards the first, those that fall off
/// coming back in at the end.
pub fn rotate_elements_left<T: Copy, const N: usize, const OFFSET: usize>(a: [T; N]) -> (out: [T;
    N])
    ensures
        forall|i: int| 0 <= i < N ==> #[trigger] out[i] == a[(i + OFFSET) % (N as int)],
{
    let mut out = a;
    for i in 0..N
        invariant
            forall|j: int|
                0 <= j < N ==> out[j] == if j < i {
                    a[(j + OFFSET) % (N as int)]
                } else {
                    a[j]
                },
    {
        let by = OFFSET % N;
        let from = if i < N - by {
            i + by
        } else {
            i - (N - by)
        };
        proof {
            lemma_add_mod_noop(i as int, OFFSET as int, N as int);
            lemma_small_mod(i as nat, N as nat);
            if i < N - by {
                lemma_small_mod((i + by) as nat, N as nat);
            } else {
                lemma_small_mod((i + by - N) as nat, N as nat);
                lemma_add_mod_noop(from as int, N as int, N as int);
            }
        }
        out[i] = a[from];
    }
    out
}

/// The lanes moved `OFFSET` places towards the last, those that fall off
/// coming back in at the front.
pub fn rotate_elements_right<T: Copy, const N: usize, const OFFSET: usize>(a: [T; N]) -> (out: [T;
    N])
    ensures
        forall|i: int| 0 <= i < N ==> #[trigger] out[i] == a[(i + N - OFFSET % N) % (N as int)],
{
    let mut out = a;
    for i in 0..N
        invariant
            forall|j: int|
                0 <= j < N ==> out[j] == if j < i {
                    a[(j + N - OFFSET % N) % (N as int)]
                } else {
                    a[j]
                },
    {
        let by = OFFSET % N;
        let from = if i < by {
            i + (N - by)
        } else {
            i - by
        };
        proof {
            if i < by {
                lemma_small_mod((i + N - by) as nat, N as nat);
            } else {
                lemma_small_mod((i - by) as nat, N as nat);
                lemma_add_mod_noop(from as int, N as int, N as int);
            }
        }
        out[i] = a[from];
    }
    out
}

/// The bits that any lane of `s` has.
pub open spec fn or_of(s: Seq<u8>) -> u8
    decreases s.len(),
{
    if s.len() == 0 {
        0u8
    } else {
        or_of(s.drop_last()) | s.last()
    }
}

/// No bit is set in `or_of(s)` just when none is set in any lane.
pub proof fn lemma_or_of_zero(s: Seq<u8>)
    ensures
        or_of(s) == 0 <==> forall|i: int| 0 <= i < s.len() ==> s[i] == 0,
    decreases s.len(),
{
    if s.len() > 0 {
        let front = s.drop_last();
        lemma_or_of_zero(front);
        let a = or_of(front);
        let b = s.last();
        assert((a | b) == 0 <==> a == 0 && b == 0) by (bit_vector);
        if or_of(s) == 0 {
            assert forall|i: int| 0 <= i < s.len() implies s[i] == 0 by {
                if i < s.len() - 1 {
                    assert(front[i] == s[i]);
                }
            }
        } else if a == 0 {
            assert(s[s.len() - 1] != 0);
        } else {
            let i = choose|i: int| 0 <= i < front.len() && front[i] != 0;
            assert(s[i] == front[i]);
        }
    }
}

/// The bits that any lane of `a` has.
pub fn reduce_or<const N: usize>(a: [u8; N]) -> (out: u8)
    ensures
        out == or_of(a@),
{
    let mut out = 0u8;
    for i in 0..N
        invariant
            out == or_of(a@.take(i as int)),
    {
        proof {
            assert(a@.take(i + 1).drop_last() == a@.take(i as int));
        }
        out = out | a[i];
    }
    proof {
        assert(a@.take(N as int) == a@);
    }
    out
}

/// Each lane in sixteen bits.
pub fn widen<const N: usize>(a: [u8; N]) -> (out: [u16; N])
    ensures
        forall|i: int| 0 <= i < N ==> #[trigger] out[i] == a[i] as u16,
{
    let mut out = [0u16;N];
    for i in 0..N
        invariant
            forall|j: int| 0 <= j < i ==> out[j] == a[j] as u16,
    {
        out[i] = a[i] as u16;
    }
    out
}

/// The low eight bits of each lane.
pub fn narrow<const N: usize>(a: [u16; N]) -> (out: [u8; N])
    ensures
        forall|i: int| 0 <= i < N ==> #[trigger] out[i] == a[i] as u8,
{
    let mut out = [0u8;N];
    for i in 0..N
        invariant
            forall|j: int| 0 <= j < i ==> out[j] == a[j] as u8,
    {
        out[i] = #[verifier::truncate] (a[i] as u8);
    }
    out
}

/// Each lane of `a` shifted left by the same lane of `by`, in sixteen bits.
pub fn shl16<const N: usize>(a: [u16; N], by: [u16; N]) -> (out: [u16; N])
    requires
        forall|i: int| 0 <= i < N ==> by[i] < 16,
    ensures
        forall|i: int| 0 <= i < N ==> #[trigger] out[i] == a[i] << by[i],
{
    let mut out = [0u16;N];
    for i in 0..N
        invariant
            forall|j: int| 0 <= j < N ==> by[j] < 16,
            forall|j: int| 0 <= j < i ==> out[j] == a[j] << by[j],
    {
        out[i] = a[i] << by[i];
    }
    out
}

/// Each lane of `a` shifted right by the same lane of `by`, in sixteen bits.
pub fn shr16<const N: usize>(a: [u16; N], by: [u16; N]) -> (out: [u16; N])
    requires
        forall|i: int| 0 <= i < N ==> by[i] < 16,
    ensures
        forall|i: int| 0 <= i < N ==> #[trigger] out[i] == a[i] >> by[i],
{
    let mut out = [0u16;N];
    for i in 0..N
        invariant
            forall|j: int| 0 <= j < N ==> by[j] < 16,
            forall|j: int| 0 <= j < i ==> out[j] == a[j] >> by[j],
    {
        out[i] = a[i] >> by[i];
    }
    out
}

/// The bits that either lane of each pair has, in sixteen bits.
pub fn bitor16<const N: usize>(a: [u16; N], b: [u16; N]) -> (out: [u16; N])
    ensures
        forall|i: int| 0 <= i < N ==> #[trigger] out[i] == a[i] | b[i],
{
    let mut out = [0u16;N];
    for i in 0..N
        invariant
            forall|j: int| 0 <= j < i ==> out[j] == a[j] | b[j],
    {
        out[i] = a[i] | b[i];
    }
    out
}

} // verus!
