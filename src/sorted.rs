//! Searches over the sorted key sequence of one node.
use vstd::prelude::*;

verus! {

/// The keys are in non-decreasing order.
pub open spec fn sorted(s: Seq<i32>) -> bool {
    forall|i: int, j: int| 0 <= i <= j < s.len() ==> s[i] <= s[j]
}

/// Number of leading keys strictly below `key`: the child a search descends into.
pub fn count_below(keys: &Vec<i32>, key: i32) -> (r: usize)
    requires
        sorted(keys@),
    ensures
        r <= keys@.len(),
        forall|i: int| 0 <= i < r ==> keys@[i] < key,
        forall|i: int| r <= i < keys@.len() ==> keys@[i] >= key,
{
    let mut lo: usize = 0;
    let mut hi: usize = keys.len();
    while lo < hi
        invariant
            sorted(keys@),
            lo <= hi <= keys@.len(),
            forall|i: int| 0 <= i < lo ==> keys@[i] < key,
            forall|i: int| hi <= i < keys@.len() ==> keys@[i] >= key,
        decreases hi - lo,
    {
        let mid = lo + (hi - lo) / 2;
        if keys[mid] < key {
            lo = mid + 1;
        } else {
            hi = mid;
        }
    }
    lo
}

/// Number of leading keys at or below `key`: where an insertion places it.
pub fn count_at_most(keys: &Vec<i32>, key: i32) -> (r: usize)
    requires
        sorted(keys@),
    ensures
        r <= keys@.len(),
        forall|i: int| 0 <= i < r ==> keys@[i] <= key,
        forall|i: int| r <= i < keys@.len() ==> keys@[i] > key,
{
    let mut lo: usize = 0;
    let mut hi: usize = keys.len();
    while lo < hi
        invariant
            sorted(keys@),
            lo <= hi <= keys@.len(),
            forall|i: int| 0 <= i < lo ==> keys@[i] <= key,
            forall|i: int| hi <= i < keys@.len() ==> keys@[i] > key,
        decreases hi - lo,
    {
        let mid = lo + (hi - lo) / 2;
        if keys[mid] <= key {
            lo = mid + 1;
        } else {
            hi = mid;
        }
    }
    lo
}

/// Exact membership test over sorted keys, in logarithmic time.
pub fn contains_sorted(keys: &Vec<i32>, key: i32) -> (r: bool)
    requires
        sorted(keys@),
    ensures
        r == keys@.contains(key),
{
    let i = count_below(keys, key);
    if i < keys.len() && keys[i] == key {
        true
    } else {
        proof {
            if keys@.contains(key) {
                let j = choose|j: int| 0 <= j < keys@.len() && keys@[j] == key;
                assert(keys@[j] == key);
            }
        }
        false
    }
}

} // verus!
