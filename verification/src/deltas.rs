use vstd::prelude::*;
use crate::atsp::{
    cost_sum, edge_term, lemma_cost_sum_congruent, lemma_cost_sum_singleton, lemma_cost_sum_split,
    matrix_bounded, matrix_square, tour_cost, MAX_COST,
};
use crate::solution::seq_in_range;
use crate::MAX_NODES;

verus! {

/// The order after swapping the nodes at positions `i` and `j`.
pub open spec fn swap_seq(s: Seq<u32>, i: int, j: int) -> Seq<u32> {
    s.update(i, s[j]).update(j, s[i])
}

/// The order after reversing the segment of positions `i+1 ..= j`.
pub open spec fn reverse_span(s: Seq<u32>, i: int, j: int) -> Seq<u32> {
    Seq::new(s.len(), |k: int| if i + 1 <= k <= j { s[i + j + 1 - k] } else { s[k] })
}

/// The order after an edge reversal described by the index pair `(a, b)`:
/// the pair is put in increasing order, and pairs whose span is degenerate
/// (boundary distance under 2, or the cyclically adjacent wraparound pair)
/// leave the order unchanged.
pub open spec fn edge_swap_result(s: Seq<u32>, a: int, b: int) -> Seq<u32> {
    let n = s.len() as int;
    let i = if a <= b { a } else { b };
    let j = if a <= b { b } else { a };
    if j - i < 2 || j - i == n - 1 {
        s
    } else {
        reverse_span(s, i, j)
    }
}

/// What the delta functions assume of their inputs: at least three nodes, a
/// square matrix of matching side, and node values that index the matrix.
pub open spec fn delta_config(m: Seq<Seq<i32>>, s: Seq<u32>) -> bool {
    &&& s.len() >= 3
    &&& matrix_square(m, s.len() as int)
    &&& seq_in_range(s, s.len() as int)
}

/// Matrix entry for the edge from the node at position `p` to the node at
/// position `q` of the order `s`.
pub open spec fn pos_cost(m: Seq<Seq<i32>>, s: Seq<u32>, p: int, q: int) -> int {
    m[s[p] as int][s[q] as int] as int
}

/// Cyclic predecessor and successor of a position.
pub open spec fn prev_pos(n: int, k: int) -> int {
    (k + n - 1) % n
}

pub open spec fn next_pos(n: int, k: int) -> int {
    (k + 1) % n
}

/// A value already below the modulus is its own remainder.
pub proof fn lemma_mod_id(k: int, n: int)
    requires
        0 < n,
        0 <= k < n,
    ensures
        k % n == k,
{
    vstd::arithmetic::div_mod::lemma_small_mod(k as nat, n as nat);
}

/// The modulus divides itself.
pub proof fn lemma_mod_n(n: int)
    requires
        0 < n,
    ensures
        n % n == 0,
{
    vstd::arithmetic::div_mod::lemma_mod_self_0(n);
}

/// The cyclic successor steps forward by one, wrapping at the end.
pub proof fn lemma_next_pos(n: int, k: int)
    requires
        0 < n,
        0 <= k < n,
    ensures
        next_pos(n, k) == if k == n - 1 {
            0int
        } else {
            k + 1
        },
{
    if k == n - 1 {
        lemma_mod_n(n);
    } else {
        lemma_mod_id(k + 1, n);
    }
}

/// The cyclic predecessor steps back by one, wrapping at the start.
pub proof fn lemma_prev_pos(n: int, k: int)
    requires
        0 < n,
        0 <= k < n,
    ensures
        prev_pos(n, k) == if k == 0 {
            n - 1
        } else {
            k - 1
        },
{
    if k == 0 {
        lemma_mod_id(n - 1, n);
    } else {
        vstd::arithmetic::div_mod::lemma_mod_add_multiples_vanish(k - 1, n);
        lemma_mod_id(k - 1, n);
    }
}

/// Swapping the same position twice, in either notation, is the same order.
pub proof fn lemma_swap_seq_comm(s: Seq<u32>, i: int, j: int)
    requires
        0 <= i < s.len(),
        0 <= j < s.len(),
    ensures
        swap_seq(s, i, j) == swap_seq(s, j, i),
{
    assert(swap_seq(s, i, j) =~= swap_seq(s, j, i));
}

/// Cost change of swapping the cyclically adjacent pair `(0, n-1)`.
pub proof fn lemma_node_swap_delta_wrap(m: Seq<Seq<i32>>, s: Seq<u32>)
    requires
        delta_config(m, s),
    ensures
        tour_cost(m, swap_seq(s, 0, s.len() - 1)) - tour_cost(m, s) == pos_cost(m, s, 0, s.len() - 1)
            - pos_cost(m, s, s.len() - 1, 0) + pos_cost(m, s, s.len() - 2, 0) - pos_cost(
            m,
            s,
            0,
            1,
        ) + pos_cost(m, s, s.len() - 1, 1) - pos_cost(m, s, s.len() - 2, s.len() - 1),
{
    let n = s.len() as int;
    let s2 = swap_seq(s, 0, n - 1);
    assert(s2.len() == n);
    lemma_cost_sum_split(m, s, 0, 1, n);
    lemma_cost_sum_split(m, s, 1, n - 2, n);
    lemma_cost_sum_split(m, s, n - 2, n - 1, n);
    lemma_cost_sum_split(m, s2, 0, 1, n);
    lemma_cost_sum_split(m, s2, 1, n - 2, n);
    lemma_cost_sum_split(m, s2, n - 2, n - 1, n);
    lemma_cost_sum_singleton(m, s, 0);
    lemma_cost_sum_singleton(m, s, n - 2);
    lemma_cost_sum_singleton(m, s, n - 1);
    lemma_cost_sum_singleton(m, s2, 0);
    lemma_cost_sum_singleton(m, s2, n - 2);
    lemma_cost_sum_singleton(m, s2, n - 1);
    assert forall|k: int| 1 <= k < n - 2 implies edge_term(m, s2, k) == edge_term(m, s, k) by {
        lemma_mod_id(k + 1, n);
    }
    lemma_cost_sum_congruent(m, s2, s, 1, n - 2);
    assert(edge_term(m, s, 0) == pos_cost(m, s, 0, 1)) by {
        lemma_mod_id(1, n);
    }
    assert(edge_term(m, s2, 0) == pos_cost(m, s, n - 1, 1)) by {
        lemma_mod_id(1, n);
    }
    assert(edge_term(m, s, n - 2) == pos_cost(m, s, n - 2, n - 1)) by {
        lemma_mod_id(n - 1, n);
    }
    assert(edge_term(m, s2, n - 2) == pos_cost(m, s, n - 2, 0)) by {
        lemma_mod_id(n - 1, n);
    }
    assert(edge_term(m, s, n - 1) == pos_cost(m, s, n - 1, 0)) by {
        lemma_mod_n(n);
    }
    assert(edge_term(m, s2, n - 1) == pos_cost(m, s, 0, n - 1)) by {
        lemma_mod_n(n);
    }
}

/// Cost change of swapping the adjacent positions `i` and `i + 1`.
pub proof fn lemma_node_swap_delta_adjacent(m: Seq<Seq<i32>>, s: Seq<u32>, i: int)
    requires
        delta_config(m, s),
        0 <= i,
        i + 1 <= s.len() - 1,
        !(i == 0 && i + 1 == s.len() - 1),
    ensures
        tour_cost(m, swap_seq(s, i, i + 1)) - tour_cost(m, s) == pos_cost(
            m,
            s,
            prev_pos(s.len() as int, i),
            i + 1,
        ) + pos_cost(m, s, i, next_pos(s.len() as int, i + 1)) - pos_cost(
            m,
            s,
            prev_pos(s.len() as int, i),
            i,
        ) - pos_cost(m, s, i + 1, next_pos(s.len() as int, i + 1)) - pos_cost(m, s, i, i + 1)
            + pos_cost(m, s, i + 1, i),
{
    let n = s.len() as int;
    let j = i + 1;
    let s2 = swap_seq(s, i, j);
    assert(s2.len() == n);
    lemma_next_pos(n, j);
    lemma_prev_pos(n, i);
    if i >= 1 {
        lemma_cost_sum_split(m, s, 0, i - 1, n);
        lemma_cost_sum_split(m, s, i - 1, i, n);
        lemma_cost_sum_split(m, s, i, i + 1, n);
        lemma_cost_sum_split(m, s, i + 1, i + 2, n);
        lemma_cost_sum_split(m, s2, 0, i - 1, n);
        lemma_cost_sum_split(m, s2, i - 1, i, n);
        lemma_cost_sum_split(m, s2, i, i + 1, n);
        lemma_cost_sum_split(m, s2, i + 1, i + 2, n);
        lemma_cost_sum_singleton(m, s, i - 1);
        lemma_cost_sum_singleton(m, s, i);
        lemma_cost_sum_singleton(m, s, i + 1);
        lemma_cost_sum_singleton(m, s2, i - 1);
        lemma_cost_sum_singleton(m, s2, i);
        lemma_cost_sum_singleton(m, s2, i + 1);
        assert forall|k: int| 0 <= k < i - 1 implies edge_term(m, s2, k) == edge_term(m, s, k) by {
            lemma_mod_id(k + 1, n);
        }
        lemma_cost_sum_congruent(m, s2, s, 0, i - 1);
        assert forall|k: int| i + 2 <= k < n implies edge_term(m, s2, k) == edge_term(m, s, k) by {
            if k == n - 1 {
                lemma_mod_n(n);
            } else {
                lemma_mod_id(k + 1, n);
            }
        }
        lemma_cost_sum_congruent(m, s2, s, i + 2, n);
        assert(edge_term(m, s, i - 1) == pos_cost(m, s, i - 1, i)) by {
            lemma_mod_id(i, n);
        }
        assert(edge_term(m, s2, i - 1) == pos_cost(m, s, i - 1, j)) by {
            lemma_mod_id(i, n);
        }
        assert(edge_term(m, s, i) == pos_cost(m, s, i, j)) by {
            lemma_mod_id(j, n);
        }
        assert(edge_term(m, s2, i) == pos_cost(m, s, j, i)) by {
            lemma_mod_id(j, n);
        }
        if j == n - 1 {
            assert(edge_term(m, s, j) == pos_cost(m, s, j, 0)) by {
                lemma_mod_n(n);
            }
            assert(edge_term(m, s2, j) == pos_cost(m, s, i, 0)) by {
                lemma_mod_n(n);
                assert(s2[0] == s[0]);
            }
        } else {
            assert(edge_term(m, s, j) == pos_cost(m, s, j, j + 1)) by {
                lemma_mod_id(j + 1, n);
            }
            assert(edge_term(m, s2, j) == pos_cost(m, s, i, j + 1)) by {
                lemma_mod_id(j + 1, n);
            }
        }
    } else {
        // i == 0, so j == 1 and n >= 4 is not required: the wraparound pair is
        // excluded by the precondition, hence 1 < n - 1.
        lemma_cost_sum_split(m, s, 0, 1, n);
        lemma_cost_sum_split(m, s, 1, 2, n);
        lemma_cost_sum_split(m, s, 2, n - 1, n);
        lemma_cost_sum_split(m, s2, 0, 1, n);
        lemma_cost_sum_split(m, s2, 1, 2, n);
        lemma_cost_sum_split(m, s2, 2, n - 1, n);
        lemma_cost_sum_singleton(m, s, 0);
        lemma_cost_sum_singleton(m, s, 1);
        lemma_cost_sum_singleton(m, s, n - 1);
        lemma_cost_sum_singleton(m, s2, 0);
        lemma_cost_sum_singleton(m, s2, 1);
        lemma_cost_sum_singleton(m, s2, n - 1);
        assert forall|k: int| 2 <= k < n - 1 implies edge_term(m, s2, k) == edge_term(m, s, k) by {
            lemma_mod_id(k + 1, n);
        }
        lemma_cost_sum_congruent(m, s2, s, 2, n - 1);
        assert(edge_term(m, s, 0) == pos_cost(m, s, 0, 1)) by {
            lemma_mod_id(1, n);
        }
        assert(edge_term(m, s2, 0) == pos_cost(m, s, 1, 0)) by {
            lemma_mod_id(1, n);
        }
        assert(edge_term(m, s, 1) == pos_cost(m, s, 1, 2)) by {
            lemma_mod_id(2, n);
        }
        assert(edge_term(m, s2, 1) == pos_cost(m, s, 0, 2)) by {
            lemma_mod_id(2, n);
        }
        assert(edge_term(m, s, n - 1) == pos_cost(m, s, n - 1, 0)) by {
            lemma_mod_n(n);
        }
        assert(edge_term(m, s2, n - 1) == pos_cost(m, s, n - 1, 1)) by {
            lemma_mod_n(n);
        }
    }
}

/// Cost change of swapping positions `i < j` that are not cyclically
/// adjacent: only the four boundary edges around the two positions change.
pub proof fn lemma_node_swap_delta_general(m: Seq<Seq<i32>>, s: Seq<u32>, i: int, j: int)
    requires
        delta_config(m, s),
        0 <= i,
        i + 2 <= j <= s.len() - 1,
        !(i == 0 && j == s.len() - 1),
    ensures
        tour_cost(m, swap_seq(s, i, j)) - tour_cost(m, s) == pos_cost(
            m,
            s,
            prev_pos(s.len() as int, i),
            j,
        ) + pos_cost(m, s, i, next_pos(s.len() as int, j)) - pos_cost(
            m,
            s,
            prev_pos(s.len() as int, i),
            i,
        ) - pos_cost(m, s, j, next_pos(s.len() as int, j)) + pos_cost(m, s, j, i + 1) + pos_cost(
            m,
            s,
            j - 1,
            i,
        ) - pos_cost(m, s, i, i + 1) - pos_cost(m, s, j - 1, j),
{
    let n = s.len() as int;
    let s2 = swap_seq(s, i, j);
    assert(s2.len() == n);
    lemma_next_pos(n, j);
    lemma_prev_pos(n, i);
    if i >= 1 {
        lemma_cost_sum_split(m, s, 0, i - 1, n);
        lemma_cost_sum_split(m, s, i - 1, i, n);
        lemma_cost_sum_split(m, s, i, i + 1, n);
        lemma_cost_sum_split(m, s, i + 1, j - 1, n);
        lemma_cost_sum_split(m, s, j - 1, j, n);
        lemma_cost_sum_split(m, s, j, j + 1, n);
        lemma_cost_sum_split(m, s2, 0, i - 1, n);
        lemma_cost_sum_split(m, s2, i - 1, i, n);
        lemma_cost_sum_split(m, s2, i, i + 1, n);
        lemma_cost_sum_split(m, s2, i + 1, j - 1, n);
        lemma_cost_sum_split(m, s2, j - 1, j, n);
        lemma_cost_sum_split(m, s2, j, j + 1, n);
        lemma_cost_sum_singleton(m, s, i - 1);
        lemma_cost_sum_singleton(m, s, i);
        lemma_cost_sum_singleton(m, s, j - 1);
        lemma_cost_sum_singleton(m, s, j);
        lemma_cost_sum_singleton(m, s2, i - 1);
        lemma_cost_sum_singleton(m, s2, i);
        lemma_cost_sum_singleton(m, s2, j - 1);
        lemma_cost_sum_singleton(m, s2, j);
        assert forall|k: int| 0 <= k < i - 1 implies edge_term(m, s2, k) == edge_term(m, s, k) by {
            lemma_mod_id(k + 1, n);
        }
        lemma_cost_sum_congruent(m, s2, s, 0, i - 1);
        assert forall|k: int| i + 1 <= k < j - 1 implies edge_term(m, s2, k) == edge_term(m, s, k) by {
            lemma_mod_id(k + 1, n);
        }
        lemma_cost_sum_congruent(m, s2, s, i + 1, j - 1);
        assert forall|k: int| j + 1 <= k < n implies edge_term(m, s2, k) == edge_term(m, s, k) by {
            if k == n - 1 {
                lemma_mod_n(n);
            } else {
                lemma_mod_id(k + 1, n);
            }
        }
        lemma_cost_sum_congruent(m, s2, s, j + 1, n);
        assert(edge_term(m, s, i - 1) == pos_cost(m, s, i - 1, i)) by {
            lemma_mod_id(i, n);
        }
        assert(edge_term(m, s2, i - 1) == pos_cost(m, s, i - 1, j)) by {
            lemma_mod_id(i, n);
        }
        assert(edge_term(m, s, i) == pos_cost(m, s, i, i + 1)) by {
            lemma_mod_id(i + 1, n);
        }
        assert(edge_term(m, s2, i) == pos_cost(m, s, j, i + 1)) by {
            lemma_mod_id(i + 1, n);
        }
        assert(edge_term(m, s, j - 1) == pos_cost(m, s, j - 1, j)) by {
            lemma_mod_id(j, n);
        }
        assert(edge_term(m, s2, j - 1) == pos_cost(m, s, j - 1, i)) by {
            lemma_mod_id(j, n);
        }
        if j == n - 1 {
            assert(edge_term(m, s, j) == pos_cost(m, s, j, 0)) by {
                lemma_mod_n(n);
            }
            assert(edge_term(m, s2, j) == pos_cost(m, s, i, 0)) by {
                lemma_mod_n(n);
                assert(s2[0] == s[0]);
            }
        } else {
            assert(edge_term(m, s, j) == pos_cost(m, s, j, j + 1)) by {
                lemma_mod_id(j + 1, n);
            }
            assert(edge_term(m, s2, j) == pos_cost(m, s, i, j + 1)) by {
                lemma_mod_id(j + 1, n);
            }
        }
    } else {
        // i == 0, so j <= n - 2 by the wraparound exclusion.
        lemma_cost_sum_split(m, s, 0, 1, n);
        lemma_cost_sum_split(m, s, 1, j - 1, n);
        lemma_cost_sum_split(m, s, j - 1, j, n);
        lemma_cost_sum_split(m, s, j, j + 1, n);
        lemma_cost_sum_split(m, s, j + 1, n - 1, n);
        lemma_cost_sum_split(m, s2, 0, 1, n);
        lemma_cost_sum_split(m, s2, 1, j - 1, n);
        lemma_cost_sum_split(m, s2, j - 1, j, n);
        lemma_cost_sum_split(m, s2, j, j + 1, n);
        lemma_cost_sum_split(m, s2, j + 1, n - 1, n);
        lemma_cost_sum_singleton(m, s, 0);
        lemma_cost_sum_singleton(m, s, j - 1);
        lemma_cost_sum_singleton(m, s, j);
        lemma_cost_sum_singleton(m, s, n - 1);
        lemma_cost_sum_singleton(m, s2, 0);
        lemma_cost_sum_singleton(m, s2, j - 1);
        lemma_cost_sum_singleton(m, s2, j);
        lemma_cost_sum_singleton(m, s2, n - 1);
        assert forall|k: int| 1 <= k < j - 1 implies edge_term(m, s2, k) == edge_term(m, s, k) by {
            lemma_mod_id(k + 1, n);
        }
        lemma_cost_sum_congruent(m, s2, s, 1, j - 1);
        assert forall|k: int| j + 1 <= k < n - 1 implies edge_term(m, s2, k) == edge_term(m, s, k) by {
            lemma_mod_id(k + 1, n);
        }
        lemma_cost_sum_congruent(m, s2, s, j + 1, n - 1);
        assert(edge_term(m, s, 0) == pos_cost(m, s, 0, 1)) by {
            lemma_mod_id(1, n);
        }
        assert(edge_term(m, s2, 0) == pos_cost(m, s, j, 1)) by {
            lemma_mod_id(1, n);
        }
        assert(edge_term(m, s, j - 1) == pos_cost(m, s, j - 1, j)) by {
            lemma_mod_id(j, n);
        }
        assert(edge_term(m, s2, j - 1) == pos_cost(m, s, j - 1, 0)) by {
            lemma_mod_id(j, n);
        }
        assert(edge_term(m, s, j) == pos_cost(m, s, j, j + 1)) by {
            lemma_mod_id(j + 1, n);
        }
        assert(edge_term(m, s2, j) == pos_cost(m, s, 0, j + 1)) by {
            lemma_mod_id(j + 1, n);
        }
        assert(edge_term(m, s, n - 1) == pos_cost(m, s, n - 1, 0)) by {
            lemma_mod_n(n);
        }
        assert(edge_term(m, s2, n - 1) == pos_cost(m, s, n - 1, j)) by {
            lemma_mod_n(n);
        }
    }
}


/// Sum of the matrix entries along the segment edges `(k, k+1)` for
/// `a <= k < b`, read in the direction of travel.
pub open spec fn sum_fwd(m: Seq<Seq<i32>>, s: Seq<u32>, a: int, b: int) -> int
    decreases b - a,
{
    if a >= b {
        0
    } else {
        m[s[a] as int][s[a + 1] as int] + sum_fwd(m, s, a + 1, b)
    }
}

/// Sum of the matrix entries along the same segment edges read against the
/// direction of travel.
pub open spec fn sum_bwd(m: Seq<Seq<i32>>, s: Seq<u32>, a: int, b: int) -> int
    decreases b - a,
{
    if a >= b {
        0
    } else {
        m[s[a + 1] as int][s[a] as int] + sum_bwd(m, s, a + 1, b)
    }
}

/// Extending the forward segment sum by one edge adds that edge's entry.
pub proof fn lemma_sum_fwd_peel(m: Seq<Seq<i32>>, s: Seq<u32>, a: int, b: int)
    requires
        a <= b,
    ensures
        sum_fwd(m, s, a, b + 1) == sum_fwd(m, s, a, b) + m[s[b] as int][s[b + 1] as int],
    decreases b - a,
{
    if a < b {
        lemma_sum_fwd_peel(m, s, a + 1, b);
    } else {
        assert(sum_fwd(m, s, b + 1, b + 1) == 0);
        assert(sum_fwd(m, s, b, b) == 0);
    }
}

/// Extending the backward segment sum by one edge adds that edge's entry.
pub proof fn lemma_sum_bwd_peel(m: Seq<Seq<i32>>, s: Seq<u32>, a: int, b: int)
    requires
        a <= b,
    ensures
        sum_bwd(m, s, a, b + 1) == sum_bwd(m, s, a, b) + m[s[b + 1] as int][s[b] as int],
    decreases b - a,
{
    if a < b {
        lemma_sum_bwd_peel(m, s, a + 1, b);
    } else {
        assert(sum_bwd(m, s, b + 1, b + 1) == 0);
        assert(sum_bwd(m, s, b, b) == 0);
    }
}

/// Below the wrap point, the cyclic sum agrees with the plain forward sum.
proof fn lemma_cost_sum_is_fwd(m: Seq<Seq<i32>>, s: Seq<u32>, a: int, b: int)
    requires
        0 <= a <= b,
        b <= s.len() - 1,
    ensures
        cost_sum(m, s, a, b) == sum_fwd(m, s, a, b),
    decreases b - a,
{
    let n = s.len() as int;
    if a < b {
        lemma_mod_id(a + 1, n);
        lemma_cost_sum_is_fwd(m, s, a + 1, b);
    }
}

/// The part of the reversed order strictly inside the span sums to the
/// backward sum of the original order.
proof fn lemma_interior_rev(m: Seq<Seq<i32>>, s: Seq<u32>, i: int, j: int, a: int)
    requires
        s.len() >= 3,
        0 <= i,
        i + 2 <= j <= s.len() - 1,
        i + 1 <= a <= j,
    ensures
        cost_sum(m, reverse_span(s, i, j), a, j) == sum_bwd(m, s, i + 1, i + j + 1 - a),
    decreases j - a,
{
    let n = s.len() as int;
    let s2 = reverse_span(s, i, j);
    if a == j {
        assert(cost_sum(m, s2, j, j) == 0);
        assert(sum_bwd(m, s, i + 1, i + 1) == 0);
    } else {
        lemma_interior_rev(m, s, i, j, a + 1);
        lemma_cost_sum_split(m, s2, a, a + 1, j);
        lemma_cost_sum_singleton(m, s2, a);
        lemma_mod_id(a + 1, n);
        assert(s2[a] == s[i + j + 1 - a]);
        assert(s2[a + 1] == s[i + j - a]);
        assert(edge_term(m, s2, a) == m[s[i + j + 1 - a] as int][s[i + j - a] as int]);
        lemma_sum_bwd_peel(m, s, i + 1, i + j - a);
    }
}

/// Cost change of reversing the segment strictly between positions `i` and
/// `j`: the two boundary edges change, and every interior edge flips its
/// direction of travel, which matters on an asymmetric matrix.
pub proof fn lemma_edge_reversal_delta(m: Seq<Seq<i32>>, s: Seq<u32>, i: int, j: int)
    requires
        delta_config(m, s),
        0 <= i,
        i + 2 <= j <= s.len() - 1,
        !(i == 0 && j == s.len() - 1),
    ensures
        tour_cost(m, reverse_span(s, i, j)) - tour_cost(m, s) == pos_cost(m, s, i, j) + pos_cost(
            m,
            s,
            i + 1,
            next_pos(s.len() as int, j),
        ) - pos_cost(m, s, i, i + 1) - pos_cost(m, s, j, next_pos(s.len() as int, j)) + (sum_bwd(
            m,
            s,
            i + 1,
            j,
        ) - sum_fwd(m, s, i + 1, j)),
{
    let n = s.len() as int;
    let s2 = reverse_span(s, i, j);
    assert(s2.len() == n);
    lemma_next_pos(n, j);
    lemma_cost_sum_split(m, s, 0, i, n);
    lemma_cost_sum_split(m, s, i, i + 1, n);
    lemma_cost_sum_split(m, s, i + 1, j, n);
    lemma_cost_sum_split(m, s, j, j + 1, n);
    lemma_cost_sum_split(m, s2, 0, i, n);
    lemma_cost_sum_split(m, s2, i, i + 1, n);
    lemma_cost_sum_split(m, s2, i + 1, j, n);
    lemma_cost_sum_split(m, s2, j, j + 1, n);
    lemma_cost_sum_singleton(m, s, i);
    lemma_cost_sum_singleton(m, s, j);
    lemma_cost_sum_singleton(m, s2, i);
    lemma_cost_sum_singleton(m, s2, j);
    assert forall|k: int| 0 <= k < i implies edge_term(m, s2, k) == edge_term(m, s, k) by {
        lemma_mod_id(k + 1, n);
    }
    lemma_cost_sum_congruent(m, s2, s, 0, i);
    assert forall|k: int| j + 1 <= k < n implies edge_term(m, s2, k) == edge_term(m, s, k) by {
        if k == n - 1 {
            lemma_mod_n(n);
        } else {
            lemma_mod_id(k + 1, n);
        }
    }
    lemma_cost_sum_congruent(m, s2, s, j + 1, n);
    assert(edge_term(m, s, i) == pos_cost(m, s, i, i + 1)) by {
        lemma_mod_id(i + 1, n);
    }
    assert(edge_term(m, s2, i) == pos_cost(m, s, i, j)) by {
        lemma_mod_id(i + 1, n);
        assert(s2[i] == s[i]);
        assert(s2[i + 1] == s[j]);
    }
    if j == n - 1 {
        lemma_mod_n(n);
        assert(edge_term(m, s, j) == pos_cost(m, s, j, 0));
        assert(s2[j] == s[i + 1]);
        assert(s2[0] == s[0]);
        assert(edge_term(m, s2, j) == pos_cost(m, s, i + 1, 0));
    } else {
        lemma_mod_id(j + 1, n);
        assert(edge_term(m, s, j) == pos_cost(m, s, j, j + 1));
        assert(s2[j] == s[i + 1]);
        assert(s2[j + 1] == s[j + 1]);
        assert(edge_term(m, s2, j) == pos_cost(m, s, i + 1, j + 1));
    }
    lemma_interior_rev(m, s, i, j, i + 1);
    lemma_cost_sum_is_fwd(m, s, i + 1, j);
}


/// Reads one matrix entry, connecting the executable read to the matrix view.
fn entry(cost_matrix: &Vec<Vec<i32>>, a: usize, b: usize) -> (e: i32)
    requires
        a < cost_matrix.deep_view().len(),
        b < cost_matrix.deep_view()[a as int].len(),
    ensures
        e as int == cost_matrix.deep_view()[a as int][b as int] as int,
{
    proof {
        assert(cost_matrix.deep_view()[a as int] == cost_matrix@[a as int]@);
    }
    cost_matrix[a][b]
}

/// Incremental cost change of swapping the nodes at the two positions; only
/// the edges bordering the two positions are touched, so the work is O(1)
/// whether or not the matrix is symmetric.
#[verifier::loop_isolation(false)]
pub fn get_node_swap_delta(
    solution: &Vec<u32>,
    first_idx: usize,
    second_idx: usize,
    cost_matrix: &Vec<Vec<i32>>,
) -> (delta: i32)
    requires
        3 <= solution@.len() <= MAX_NODES,
        matrix_square(cost_matrix.deep_view(), solution@.len() as int),
        matrix_bounded(cost_matrix.deep_view(), solution@.len() as int),
        seq_in_range(solution@, solution@.len() as int),
        first_idx < solution@.len(),
        second_idx < solution@.len(),
    ensures
        delta as int == tour_cost(
            cost_matrix.deep_view(),
            swap_seq(solution@, first_idx as int, second_idx as int),
        ) - tour_cost(cost_matrix.deep_view(), solution@),
{
    let ghost m = cost_matrix.deep_view();
    let ghost s = solution@;
    if first_idx == second_idx {
        proof {
            assert(swap_seq(s, first_idx as int, second_idx as int) =~= s);
        }
        return 0;
    }
    let n = solution.len();
    let fi = if first_idx > second_idx {
        second_idx
    } else {
        first_idx
    };
    let si = if first_idx > second_idx {
        first_idx
    } else {
        second_idx
    };
    proof {
        lemma_swap_seq_comm(s, first_idx as int, second_idx as int);
    }
    let first = solution[fi] as usize;
    let first_prev = solution[(fi + n - 1) % n] as usize;
    let first_next = solution[(fi + 1) % n] as usize;
    let second = solution[si] as usize;
    let second_prev = solution[(si + n - 1) % n] as usize;
    let second_next = solution[(si + 1) % n] as usize;
    proof {
        assert(first_prev == s[prev_pos(n as int, fi as int)]);
        assert(first_next == s[next_pos(n as int, fi as int)]);
        assert(second_prev == s[prev_pos(n as int, si as int)]);
        assert(second_next == s[next_pos(n as int, si as int)]);
        lemma_prev_pos(n as int, fi as int);
        lemma_next_pos(n as int, fi as int);
        lemma_prev_pos(n as int, si as int);
        lemma_next_pos(n as int, si as int);
    }
    if fi == 0 && si == n - 1 {
        let e1 = entry(cost_matrix, first, second);
        let e2 = entry(cost_matrix, second, first);
        let e3 = entry(cost_matrix, second_prev, first);
        let e4 = entry(cost_matrix, first, first_next);
        let e5 = entry(cost_matrix, second, first_next);
        let e6 = entry(cost_matrix, second_prev, second);
        proof {
            lemma_node_swap_delta_wrap(m, s);
        }
        return e1 - e2 + e3 - e4 + e5 - e6;
    }
    let e1 = entry(cost_matrix, first_prev, second);
    let e2 = entry(cost_matrix, first, second_next);
    let e3 = entry(cost_matrix, first_prev, first);
    let e4 = entry(cost_matrix, second, second_next);
    if si - fi == 1 {
        let e5 = entry(cost_matrix, first, second);
        let e6 = entry(cost_matrix, second, first);
        proof {
            lemma_node_swap_delta_adjacent(m, s, fi as int);
        }
        return e1 + e2 - e3 - e4 - e5 + e6;
    }
    let e5 = entry(cost_matrix, second, first_next);
    let e6 = entry(cost_matrix, second_prev, first);
    let e7 = entry(cost_matrix, first, first_next);
    let e8 = entry(cost_matrix, second_prev, second);
    proof {
        lemma_node_swap_delta_general(m, s, fi as int, si as int);
    }
    e1 + e2 - e3 - e4 + e5 + e6 - e7 - e8
}

/// Incremental cost change of reversing the segment strictly between the two
/// positions.  On an asymmetric matrix every interior edge changes direction,
/// so the work is O(segment length); degenerate spans cost nothing.
#[verifier::loop_isolation(false)]
#[verifier::rlimit(60)]
pub fn get_edge_swap_delta(
    solution: &Vec<u32>,
    first_idx: usize,
    second_idx: usize,
    cost_matrix: &Vec<Vec<i32>>,
) -> (delta: i32)
    requires
        3 <= solution@.len() <= MAX_NODES,
        matrix_square(cost_matrix.deep_view(), solution@.len() as int),
        matrix_bounded(cost_matrix.deep_view(), solution@.len() as int),
        seq_in_range(solution@, solution@.len() as int),
        crate::solution::seq_distinct(solution@),
        first_idx < solution@.len(),
        second_idx < solution@.len(),
    ensures
        delta as int == tour_cost(
            cost_matrix.deep_view(),
            edge_swap_result(solution@, first_idx as int, second_idx as int),
        ) - tour_cost(cost_matrix.deep_view(), solution@),
{
    let ghost m = cost_matrix.deep_view();
    let ghost s = solution@;
    if first_idx == second_idx {
        return 0;
    }
    let n = solution.len();
    let swap_pair = first_idx > second_idx || (first_idx == 0 && second_idx == n - 1);
    let fi = if swap_pair {
        second_idx
    } else {
        first_idx
    };
    let si = if swap_pair {
        first_idx
    } else {
        second_idx
    };
    let first = solution[fi] as usize;
    let first_next = solution[(fi + 1) % n] as usize;
    let second = solution[si] as usize;
    let second_next = solution[(si + 1) % n] as usize;
    proof {
        lemma_next_pos(n as int, fi as int);
        lemma_next_pos(n as int, si as int);
        assert(first_next == s[next_pos(n as int, fi as int)]);
        assert(second_next == s[next_pos(n as int, si as int)]);
    }
    if first_next == second || second_next == first {
        proof {
            let a = first_idx as int;
            let b = second_idx as int;
            let lo = if a <= b { a } else { b };
            let hi = if a <= b { b } else { a };
            if first_next == second {
                assert(s[next_pos(n as int, fi as int)] == s[si as int]);
                assert(next_pos(n as int, fi as int) == si as int);
            } else {
                assert(s[next_pos(n as int, si as int)] == s[fi as int]);
                assert(next_pos(n as int, si as int) == fi as int);
            }
            assert(hi - lo < 2 || hi - lo == n - 1);
            assert(edge_swap_result(s, a, b) == s);
        }
        return 0;
    }
    proof {
        // at this point the pair is canonical and non-degenerate
        if first_next == s[si as int] || second_next == s[fi as int] {
            assert(false);
        }
        assert(next_pos(n as int, fi as int) != si as int);
        assert(next_pos(n as int, si as int) != fi as int);
        assert(fi < si);
        assert(si - fi >= 2);
        assert(!(fi == 0 && si == n - 1));
        assert(edge_swap_result(s, first_idx as int, second_idx as int) == reverse_span(
            s,
            fi as int,
            si as int,
        ));
    }
    let e1 = entry(cost_matrix, first, second);
    let e2 = entry(cost_matrix, first_next, second_next);
    let e3 = entry(cost_matrix, first, first_next);
    let e4 = entry(cost_matrix, second, second_next);
    let mut delta: i32 = e1 + e2 - e3 - e4;
    let ghost base = delta as int;
    proof {
        assert(sum_bwd(m, s, fi + 1, fi + 1) == 0);
        assert(sum_fwd(m, s, fi + 1, fi + 1) == 0);
    }
    for k in (fi + 1)..si
        invariant
            delta as int == base + sum_bwd(m, s, fi + 1, k as int) - sum_fwd(m, s, fi + 1, k as int),
            base - 2 * (k - fi - 1) * (MAX_COST as int) <= delta as int <= base + 2 * (k - fi - 1)
                * (MAX_COST as int),
    {
        let a = solution[k] as usize;
        let b = solution[k + 1] as usize;
        let ef = entry(cost_matrix, a, b);
        let eb = entry(cost_matrix, b, a);
        proof {
            lemma_sum_fwd_peel(m, s, fi + 1, k as int);
            lemma_sum_bwd_peel(m, s, fi + 1, k as int);
            assert(2 * (k - fi - 1) * (MAX_COST as int) <= 2 * 1020 * (MAX_COST as int));
            assert(2 * ((k + 1) - fi - 1) * (MAX_COST as int) == 2 * (k - fi - 1) * (
            MAX_COST as int) + 2 * (MAX_COST as int)) by (nonlinear_arith);
        }
        delta = delta - ef + eb;
    }
    proof {
        lemma_edge_reversal_delta(m, s, fi as int, si as int);
    }
    delta
}


/// Swapping two positions rearranges the order but keeps its elements.
pub proof fn lemma_swap_seq_multiset(s: Seq<u32>, i: int, j: int)
    requires
        0 <= i < s.len(),
        0 <= j < s.len(),
    ensures
        swap_seq(s, i, j).to_multiset() == s.to_multiset(),
{
    broadcast use vstd::multiset::group_multiset_axioms;
    broadcast use vstd::seq_lib::group_to_multiset_ensures;

    if i == j {
        assert(swap_seq(s, i, j) =~= s);
    } else {
        let s1 = s.update(i, s[j]);
        vstd::seq_lib::to_multiset_update(s, i, s[j]);
        vstd::seq_lib::to_multiset_update(s1, j, s[i]);
        assert(s1[j] == s[j]);
        assert(s.contains(s[i]));
        assert(s.contains(s[j]));
        assert(swap_seq(s, i, j).to_multiset() =~= s.to_multiset());
    }
}

/// Applying the same node swap twice restores the original order.
pub proof fn lemma_node_swap_involution(s: Seq<u32>, i: int, j: int)
    requires
        0 <= i < s.len(),
        0 <= j < s.len(),
    ensures
        swap_seq(swap_seq(s, i, j), i, j) == s,
{
    assert(swap_seq(swap_seq(s, i, j), i, j) =~= s);
}

/// Applying the same edge reversal twice restores the original order.
pub proof fn lemma_edge_reversal_involution(s: Seq<u32>, a: int, b: int)
    requires
        0 <= a < s.len(),
        0 <= b < s.len(),
    ensures
        edge_swap_result(edge_swap_result(s, a, b), a, b) == s,
{
    let n = s.len() as int;
    let i = if a <= b { a } else { b };
    let j = if a <= b { b } else { a };
    if j - i < 2 || j - i == n - 1 {
    } else {
        let s2 = reverse_span(s, i, j);
        assert(s2.len() == s.len());
        assert(edge_swap_result(s, a, b) == s2);
        assert(reverse_span(s2, i, j) =~= s);
    }
}

/// A node swap leaves a permutation a permutation.
pub proof fn lemma_swap_preserves_permutation(s: Seq<u32>, i: int, j: int, n: int)
    requires
        crate::solution::is_permutation(s, n),
        0 <= i < s.len(),
        0 <= j < s.len(),
    ensures
        crate::solution::is_permutation(swap_seq(s, i, j), n),
{
}

/// An edge reversal leaves a permutation a permutation.
pub proof fn lemma_edge_swap_preserves_permutation(s: Seq<u32>, a: int, b: int, n: int)
    requires
        crate::solution::is_permutation(s, n),
        0 <= a < s.len(),
        0 <= b < s.len(),
    ensures
        crate::solution::is_permutation(edge_swap_result(s, a, b), n),
{
    let len = s.len() as int;
    let i = if a <= b { a } else { b };
    let j = if a <= b { b } else { a };
    if j - i < 2 || j - i == len - 1 {
    } else {
        let s2 = reverse_span(s, i, j);
        assert(edge_swap_result(s, a, b) == s2);
        assert(s2.len() == s.len());
        assert forall|k1: int, k2: int| 0 <= k1 < k2 < s2.len() implies s2[k1] != s2[k2] by {
            assert(s2[k1] == if i + 1 <= k1 <= j {
                s[i + j + 1 - k1]
            } else {
                s[k1]
            });
            assert(s2[k2] == if i + 1 <= k2 <= j {
                s[i + j + 1 - k2]
            } else {
                s[k2]
            });
        }
        assert forall|k: int| 0 <= k < s2.len() implies (#[trigger] s2[k]) < n by {
            assert(s2[k] == if i + 1 <= k <= j {
                s[i + j + 1 - k]
            } else {
                s[k]
            });
        }
    }
}

} // verus!
