//! Small helpers on arrays.

use vstd::prelude::*;

verus! {

/// The array of what `f` makes of each item of `xs`, in order.
pub fn map_array<T, U, F, const N: usize>(xs: [T; N], f: F) -> (r: [U; N]) where
    T: Copy,
    U: Default + Copy,
    F: Fn(T) -> U,

    requires
        forall|i: int| 0 <= i < N ==> call_requires(f, (#[trigger] xs[i],)),
    ensures
        forall|i: int| 0 <= i < N ==> call_ensures(f, (xs[i],), #[trigger] r[i]),
{
    let mut result = [U::default();N];
    let mut i: usize = 0;
    while i < N
        invariant
            i <= N,
            forall|j: int| 0 <= j < N ==> call_requires(f, (#[trigger] xs[j],)),
            forall|j: int| 0 <= j < i ==> call_ensures(f, (xs[j],), #[trigger] result[j]),
        decreases N - i,
    {
        result[i] = f(xs[i]);
        i += 1;
    }
    result
}

} // verus!
