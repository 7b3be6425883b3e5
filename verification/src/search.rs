//! Search for the boundary of a predicate on a range of integers.
use vstd::prelude::*;

verus! {

/// The predicate is monotone on `[min, max)`: once it can answer `true`, it
/// cannot answer `false` for any larger number of the range.
pub open spec fn monotone_on<F: Fn(usize) -> bool>(f: F, min: usize, max: usize) -> bool {
    forall|i: usize, j: usize|
        #![trigger call_ensures(f, (i,), true), call_ensures(f, (j,), false)]
        min <= i <= j < max && call_ensures(f, (i,), true) ==> !call_ensures(f, (j,), false)
}

/// Finds the smallest number in `[min, max)` that satisfies the predicate,
/// or `max` if there is none.
///
/// For any predicate the result lies in the range (or is `max` when the range
/// is empty) and is a boundary: the predicate answered `true` at the result
/// unless it is `max`, and `false` just below it unless it is `min`. The
/// predicate is only called on numbers of `[min, max)`. When the predicate
/// is monotone on the range, no smaller number of the range satisfies it.
pub fn lower_bound(min: usize, max: usize, f: impl Fn(usize) -> bool) -> (r: usize)
    requires
        forall|i: usize| min <= i < max ==> call_requires(f, (i,)),
    ensures
        min <= max ==> min <= r <= max,
        min > max ==> r == max,
        r < max ==> call_ensures(f, (r,), true),
        min < r ==> call_ensures(f, ((r - 1) as usize,), false),
        monotone_on(f, min, max) ==> forall|i: usize| min <= i < r ==> !call_ensures(f, (i,), true),
{
    let mut lo = min;
    let mut hi = max;
    while lo < hi
        invariant
            forall|i: usize| min <= i < max ==> call_requires(f, (i,)),
            lo <= hi ==> min <= lo && hi <= max,
            lo > hi ==> lo == min && hi == max,
            hi < max ==> call_ensures(f, (hi,), true),
            min < lo ==> call_ensures(f, ((lo - 1) as usize,), false),
            monotone_on(f, min, max) ==> forall|i: usize| min <= i < lo ==> !call_ensures(f, (i,), true),
        decreases hi - lo,
    {
        let mid = lo + (hi - lo) / 2;
        if f(mid) {
            hi = mid;
        } else {
            proof {
                if monotone_on(f, min, max) {
                    assert forall|i: usize| min <= i < mid + 1 implies !call_ensures(f, (i,), true) by {
                        if i < lo {
                        } else if call_ensures(f, (i,), true) {
                            assert(!call_ensures(f, (mid,), false));
                        }
                    }
                }
            }
            lo = mid + 1;
        }
    }
    hi
}

} // verus!
