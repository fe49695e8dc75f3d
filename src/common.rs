//! Small helpers over slices.

use vstd::prelude::*;

verus! {

/// Sets every element of `dst` to `value`.
pub fn fill<T: Copy>(dst: &mut [T], value: T)
    ensures
        final(dst)@.len() == old(dst)@.len(),
        forall|i: int| 0 <= i < final(dst)@.len() ==> #[trigger] final(dst)@[i] == value,
{
    let n = dst.len();
    let mut i: usize = 0;
    while i < n
        invariant
            n == old(dst)@.len(),
            dst@.len() == n,
            i <= n,
            forall|j: int| 0 <= j < i ==> #[trigger] dst@[j] == value,
        decreases n - i,
    {
        dst[i] = value;
        i = i + 1;
    }
}

} // verus!
