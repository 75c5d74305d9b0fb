use vstd::prelude::*;

verus! {

/// `s` is ordered from smallest to largest.
pub open spec fn sorted(s: Seq<usize>) -> bool {
    forall|i: int, j: int| 0 <= i <= j < s.len() ==> s[i] <= s[j]
}

/// Halves the search window of a sorted slice until `needle` is found.
/// The result is always `Some`: a hit carries `true` and a position
/// holding `needle`, a miss carries `false` and the index 0.
pub fn binary_search(haystack: &[usize], needle: usize) -> (r: Option<(bool, usize)>)
    requires
        sorted(haystack@),
    ensures
        r is Some,
        r->Some_0.0 <==> haystack@.contains(needle),
        r->Some_0.0 ==> r->Some_0.1 < haystack@.len() && haystack@[r->Some_0.1 as int] == needle,
        !r->Some_0.0 ==> r->Some_0.1 == 0,
{
    let mut low: usize = 0;
    let mut high: usize = haystack.len();
    while low < high
        invariant
            sorted(haystack@),
            low <= high <= haystack@.len(),
            forall|j: int| 0 <= j < low ==> haystack@[j] < needle,
            forall|j: int| high <= j < haystack@.len() ==> haystack@[j] > needle,
        decreases high - low,
    {
        let midpoint = low + (high - low) / 2;
        let value = haystack[midpoint];
        if value == needle {
            proof {
                assert(haystack@[midpoint as int] == needle);
            }
            return Some((true, midpoint));
        } else if value > needle {
            proof {
                assert forall|j: int|
                    midpoint <= j < haystack@.len() implies haystack@[j] > needle by {
                    assert(haystack@[midpoint as int] <= haystack@[j]);
                }
            }
            high = midpoint;
        } else {
            proof {
                assert forall|j: int| 0 <= j < midpoint + 1 implies haystack@[j] < needle by {
                    assert(haystack@[j] <= haystack@[midpoint as int]);
                }
            }
            low = midpoint + 1;
        }
    }
    proof {
        assert forall|j: int| 0 <= j < haystack@.len() implies haystack@[j] != needle by {}
    }
    Some((false, 0))
}

} // verus!
