//! Choosing the best of several candidates.

use vstd::prelude::*;

verus! {

/// The position of the largest key, the last one where several are equal.
/// `None` marks an entry that is not a candidate.
pub open spec fn last_max(keys: Seq<Option<int>>) -> Option<int>
    decreases keys.len(),
{
    if keys.len() == 0 {
        None
    } else {
        let before = last_max(keys.drop_last());
        match keys.last() {
            None => before,
            Some(k) => match before {
                Some(i) if k < keys[i]->0 => Some(i),
                _ => Some(keys.len() - 1),
            },
        }
    }
}

/// What `last_max` picks is a candidate, no candidate has a larger key, and no
/// later candidate has the same key; it picks nothing only if there is no
/// candidate.
pub proof fn last_max_is_best(keys: Seq<Option<int>>)
    ensures
        last_max(keys) is None <==> (forall|j: int| 0 <= j < keys.len() ==> keys[j] is None),
        last_max(keys) matches Some(i) ==> {
            &&& 0 <= i < keys.len()
            &&& keys[i] is Some
            &&& forall|j: int| 0 <= j < keys.len() && keys[j] is Some ==> keys[j]->0 <= keys[i]->0
            &&& forall|j: int| i < j < keys.len() && keys[j] is Some ==> keys[j]->0 < keys[i]->0
        },
    decreases keys.len(),
{
    if keys.len() > 0 {
        let front = keys.drop_last();
        last_max_is_best(front);
        assert(forall|j: int| 0 <= j < front.len() ==> front[j] == keys[j]);
        assert(keys[keys.len() - 1] == keys.last());
    }
}

} // verus!
