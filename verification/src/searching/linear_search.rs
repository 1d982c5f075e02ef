use vstd::prelude::*;

verus! {

/// Index of the first element equal to `target`, scanning from the front.
pub fn linear_search(values: &[i64], target: &i64) -> (found: Option<usize>)
    ensures
        match found {
            Some(i) => {
                &&& i < values@.len()
                &&& values@[i as int] == *target
                &&& forall|j: int| 0 <= j < i ==> values@[j] != *target
            },
            None => forall|j: int| 0 <= j < values@.len() ==> values@[j] != *target,
        },
{
    let mut i: usize = 0;
    while i < values.len()
        invariant
            i <= values@.len(),
            forall|j: int| 0 <= j < i ==> values@[j] != *target,
        decreases values@.len() - i,
    {
        if values[i] == *target {
            return Some(i);
        }
        i += 1;
    }
    None
}

} // verus!
