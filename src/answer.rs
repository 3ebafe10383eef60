//! Comparing a computed solution, rounded to integers, with the expected one.

use vstd::prelude::*;

verus! {

/// Whether the rounded solution equals the expected one, entry by entry.
pub fn check_answer(result: &Vec<i32>, expected: &Vec<i32>) -> (r: bool)
    ensures
        r == (result@ == expected@),
{
    if result.len() != expected.len() {
        return false;
    }
    let mut i: usize = 0;
    while i < result.len()
        invariant
            i <= result@.len(),
            result@.len() == expected@.len(),
            forall|k: int| 0 <= k < i ==> result@[k] == expected@[k],
        decreases result@.len() - i,
    {
        if result[i] != expected[i] {
            return false;
        }
        i = i + 1;
    }
    assert(result@ =~= expected@);
    true
}

} // verus!
