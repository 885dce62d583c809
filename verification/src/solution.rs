use vstd::prelude::*;
use crate::errors::MyError;

verus! {

/// A tour holds the order in which the nodes are visited; the edge after the
/// last node returns to the first, so the order is read cyclically.
pub struct Solution {
    pub dimension: usize,
    pub order: Vec<u32>,
}

/// No node appears twice in the order.
pub open spec fn seq_distinct(s: Seq<u32>) -> bool {
    forall|k1: int, k2: int| 0 <= k1 < k2 < s.len() ==> s[k1] != s[k2]
}

/// Every node of the order lies in `[0, n)`.
pub open spec fn seq_in_range(s: Seq<u32>, n: int) -> bool {
    forall|k: int| 0 <= k < s.len() ==> (#[trigger] s[k]) < n
}

/// `s` visits exactly the nodes `0..n-1`, each at most once and hence,
/// by counting, exactly once.
pub open spec fn is_permutation(s: Seq<u32>, n: int) -> bool {
    &&& s.len() == n
    &&& seq_in_range(s, n)
    &&& seq_distinct(s)
}

impl Solution {
    /// The recorded dimension agrees with the length of the order.
    pub open spec fn wf(&self) -> bool {
        self.dimension == self.order@.len()
    }

    /// Wraps a node order as a solution; the dimension is taken from the
    /// order's length, so construction never fails.
    pub fn new(order: &Vec<u32>) -> (r: Result<Solution, MyError>)
        ensures
            r is Ok,
            r matches Ok(s) ==> s.order@ == order@ && s.dimension == order@.len() && s.wf(),
    {
        let dimension = order.len();
        Ok(Solution { dimension, order: clone_order(order) })
    }
}

impl Clone for Solution {
    fn clone(&self) -> (r: Self)
        ensures
            r.dimension == self.dimension,
            r.order@ == self.order@,
    {
        Solution { dimension: self.dimension, order: clone_order(&self.order) }
    }
}

/// Copies a node order element by element.
fn clone_order(order: &Vec<u32>) -> (r: Vec<u32>)
    ensures
        r@ == order@,
{
    let mut r: Vec<u32> = Vec::new();
    let n = order.len();
    for i in 0..n
        invariant
            r@ == order@.subrange(0, i as int),
            n == order@.len(),
    {
        r.push(order[i]);
        proof {
            assert(r@ =~= order@.subrange(0, i + 1));
        }
    }
    proof {
        assert(r@ =~= order@);
    }
    r
}

/// A reordering of a permutation (same length, same multiset of elements) is
/// itself a permutation.
pub proof fn lemma_permutation_from_multiset(s1: Seq<u32>, s2: Seq<u32>, n: int)
    requires
        is_permutation(s1, n),
        s2.len() == s1.len(),
        s2.to_multiset() == s1.to_multiset(),
    ensures
        is_permutation(s2, n),
{
    broadcast use vstd::seq_lib::group_to_multiset_ensures;

    assert(s1.no_duplicates());
    s1.lemma_multiset_has_no_duplicates();
    s2.lemma_multiset_has_no_duplicates_conv();
    assert(s2.no_duplicates());
    assert forall|k: int| 0 <= k < s2.len() implies (#[trigger] s2[k]) < n by {
        assert(s2.contains(s2[k]));
        assert(s2.to_multiset().count(s2[k]) > 0);
        assert(s1.to_multiset().count(s2[k]) > 0);
        assert(s1.contains(s2[k]));
        let idx = choose|i: int| 0 <= i < s1.len() && s1[i] == s2[k];
        assert(s1[idx] < n);
    }
}

} // verus!
