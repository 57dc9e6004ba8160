//! Small shared helpers over plain values.
use vstd::prelude::*;

verus! {

/// The inclusive `[min, max]` extent of a list of values along one axis, or
/// `None` when the list is empty.
pub fn bounds(values: &[i64]) -> (r: Option<(i64, i64)>)
    ensures
        values@.len() == 0 <==> r is None,
        match r {
            Some((lo, hi)) => {
                &&& forall|i: int| 0 <= i < values@.len() ==> lo <= #[trigger] values@[i] <= hi
                &&& exists|i: int| 0 <= i < values@.len() && values@[i] == lo
                &&& exists|j: int| 0 <= j < values@.len() && values@[j] == hi
            },
            None => true,
        },
{
    if values.len() == 0 {
        return None;
    }
    let mut lo = values[0];
    let mut hi = values[0];
    let mut i: usize = 1;
    while i < values.len()
        invariant
            1 <= i <= values@.len(),
            forall|k: int| 0 <= k < i ==> lo <= #[trigger] values@[k] <= hi,
            exists|k: int| 0 <= k < i && values@[k] == lo,
            exists|k: int| 0 <= k < i && values@[k] == hi,
        decreases values@.len() - i,
    {
        let v = values[i];
        if v < lo {
            lo = v;
        }
        if v > hi {
            hi = v;
        }
        i = i + 1;
    }
    Some((lo, hi))
}

} // verus!
