//! Small helpers shared across the library.

use vstd::prelude::*;

use crate::position::Position;

verus! {

/// True iff no position occurs twice in the list.
pub fn has_unique_elements(items: &Vec<Position>) -> (r: bool)
    ensures
        r == items@.no_duplicates(),
{
    let n = items.len();
    for i in 0..n
        invariant
            n == items@.len(),
            forall|k1: int, k2: int| 0 <= k1 < k2 < i ==> items@[k1] != items@[k2],
            forall|k1: int, k2: int|
                0 <= k1 < i && k1 < k2 < n ==> items@[k1] != items@[k2],
    {
        for j in (i + 1)..n
            invariant
                n == items@.len(),
                i < n,
                forall|k1: int, k2: int| 0 <= k1 < k2 < i ==> items@[k1] != items@[k2],
                forall|k1: int, k2: int|
                    0 <= k1 < i && k1 < k2 < n ==> items@[k1] != items@[k2],
                forall|k2: int| i < k2 < j ==> items@[i as int] != items@[k2],
        {
            let a = items[i];
            let b = items[j];
            if a.x == b.x && a.y == b.y {
                return false;
            }
        }
    }
    true
}

} // verus!
