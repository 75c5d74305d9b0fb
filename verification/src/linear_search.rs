use vstd::prelude::*;

verus! {

/// Scans the slice left to right and reports the first position holding
/// `needle`; absent values yield `None`.
pub fn linear_search(haystack: &[usize], needle: usize) -> (r: Option<(bool, usize)>)
    ensures
        match r {
            Some(p) => p.0 && p.1 < haystack@.len() && haystack@[p.1 as int] == needle && forall|
                j: int,
            | 0 <= j < p.1 ==> haystack@[j] != needle,
            None => forall|j: int| 0 <= j < haystack@.len() ==> haystack@[j] != needle,
        },
{
    let mut idx: usize = 0;
    while idx < haystack.len()
        invariant
            idx <= haystack@.len(),
            forall|j: int| 0 <= j < idx ==> haystack@[j] != needle,
        decreases haystack@.len() - idx,
    {
        if haystack[idx] == needle {
            return Some((true, idx));
        }
        idx = idx + 1;
    }
    None
}

} // verus!
