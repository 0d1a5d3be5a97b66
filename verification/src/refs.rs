//! Exercises in handing out references: mutable references into tuples and
//! slices, and splitting a slice into four near-equal parts.

use vstd::prelude::*;

use vstd::slice::slice_subrange;

verus! {

/// A mutable reference to one of the two tuple fields, the second when
/// `flag` is set.
pub fn f1(tuple: &mut (u32, u32), flag: bool) -> (r: &mut u32)
    ensures
        !flag ==> *r == old(tuple).0 && *final(tuple) == (*final(r), old(tuple).1),
        flag ==> *r == old(tuple).1 && *final(tuple) == (old(tuple).0, *final(r)),
{
    if !flag {
        &mut tuple.0
    } else {
        &mut tuple.1
    }
}

/// A mutable reference to element `n` of the slice.
pub fn f2(slice: &mut [u32], n: usize) -> (r: &mut u32)
    requires
        n < old(slice)@.len(),
    ensures
        *r == old(slice)@[n as int],
        final(slice)@ == old(slice)@.update(n as int, *final(r)),
{
    &mut slice[n]
}

/// A mutable reference to the `n`-th element counted from the end.
pub fn f3(slice: &mut [u32], n: usize) -> (r: &mut u32)
    requires
        n < old(slice)@.len(),
    ensures
        *r == old(slice)@[old(slice)@.len() - n - 1],
        final(slice)@ == old(slice)@.update(old(slice)@.len() - n - 1, *final(r)),
{
    let idx = slice.len() - n - 1;
    &mut slice[idx]
}

/// Splits a slice into four parts whose sizes differ by at most one, the
/// remainder spread over the leading parts.
pub fn f4(slice: &[u32]) -> (r: [&[u32]; 4])
    ensures
        ({
            let len = slice@.len() as int;
            let chunk = len / 4;
            let rem = len % 4;
            let s1 = chunk + if rem > 0 {
                1int
            } else {
                0int
            };
            let s2 = chunk + if rem > 1 {
                1int
            } else {
                0int
            };
            let s3 = chunk + if rem > 2 {
                1int
            } else {
                0int
            };
            &&& r[0]@ == slice@.subrange(0, s1)
            &&& r[1]@ == slice@.subrange(s1, s1 + s2)
            &&& r[2]@ == slice@.subrange(s1 + s2, s1 + s2 + s3)
            &&& r[3]@ == slice@.subrange(s1 + s2 + s3, len)
        }),
{
    let len = slice.len();
    let chunk_size = len / 4;
    let remainder = len % 4;
    let s1 = chunk_size + if remainder > 0 {
        1
    } else {
        0
    };
    let s2 = chunk_size + if remainder > 1 {
        1
    } else {
        0
    };
    let s3 = chunk_size + if remainder > 2 {
        1
    } else {
        0
    };
    proof {
        vstd::arithmetic::div_mod::lemma_fundamental_div_mod(len as int, 4);
    }
    let start_2 = s1;
    let start_3 = start_2 + s2;
    let start_4 = start_3 + s3;
    [
        slice_subrange(slice, 0, start_2),
        slice_subrange(slice, start_2, start_3),
        slice_subrange(slice, start_3, start_4),
        slice_subrange(slice, start_4, len),
    ]
}

} // verus!
