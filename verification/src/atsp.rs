use vstd::prelude::*;
use crate::errors::MyError;
use crate::solution::{Solution, is_permutation, seq_distinct, seq_in_range};
use crate::MAX_NODES;

verus! {

/// Largest magnitude allowed for a single cost entry.  Together with the cap
/// on the dimension this keeps every tour cost and every move delta inside
/// `i32`, so the arithmetic of the engine never overflows.
pub const MAX_COST: i32 = 1_000_000;

/// An asymmetric travelling-salesman instance: an `n x n` cost matrix read
/// row-major, `matrix[i][j]` being the cost of travelling from `i` to `j`.
pub struct ATSP {
    pub name: String,
    pub comment: String,
    pub dimension: usize,
    pub edge_weight_type: String,
    pub edge_weight_format: String,
    pub matrix: Vec<Vec<i32>>,
}

/// `m` is a square matrix of side `n`.
pub open spec fn matrix_square(m: Seq<Seq<i32>>, n: int) -> bool {
    &&& m.len() == n
    &&& forall|i: int| 0 <= i < n ==> (#[trigger] m[i]).len() == n
}

/// Every entry of `m` has magnitude at most `MAX_COST`.
pub open spec fn matrix_bounded(m: Seq<Seq<i32>>, n: int) -> bool {
    forall|i: int, j: int|
        0 <= i < n && 0 <= j < n ==> -MAX_COST <= #[trigger] m[i][j] <= MAX_COST
}

/// Cost of the edge leaving position `k` of the cyclic order `s`: the edge
/// after the last position returns to position 0.
pub open spec fn edge_term(m: Seq<Seq<i32>>, s: Seq<u32>, k: int) -> int {
    m[s[k] as int][s[(k + 1) % (s.len() as int)] as int] as int
}

/// Sum of the edge costs leaving positions `lo..hi` of the cyclic order `s`.
pub open spec fn cost_sum(m: Seq<Seq<i32>>, s: Seq<u32>, lo: int, hi: int) -> int
    decreases hi - lo,
{
    if lo >= hi {
        0
    } else {
        edge_term(m, s, lo) + cost_sum(m, s, lo + 1, hi)
    }
}

/// Full cost of the cyclic tour `s` under the cost matrix `m`.
pub open spec fn tour_cost(m: Seq<Seq<i32>>, s: Seq<u32>) -> int {
    cost_sum(m, s, 0, s.len() as int)
}

/// Appending one more position to the summed range adds its edge term.
pub proof fn lemma_cost_sum_extend(m: Seq<Seq<i32>>, s: Seq<u32>, lo: int, hi: int)
    requires
        lo <= hi,
    ensures
        cost_sum(m, s, lo, hi + 1) == cost_sum(m, s, lo, hi) + edge_term(m, s, hi),
    decreases hi - lo,
{
    if lo < hi {
        lemma_cost_sum_extend(m, s, lo + 1, hi);
        assert(cost_sum(m, s, lo, hi + 1) == edge_term(m, s, lo) + cost_sum(m, s, lo + 1, hi + 1));
    } else {
        assert(cost_sum(m, s, lo, lo) == 0);
        assert(cost_sum(m, s, lo, lo + 1) == edge_term(m, s, lo) + cost_sum(m, s, lo + 1, lo + 1));
    }
}

/// A range of one position sums to exactly its edge term.
pub proof fn lemma_cost_sum_singleton(m: Seq<Seq<i32>>, s: Seq<u32>, k: int)
    ensures
        cost_sum(m, s, k, k + 1) == edge_term(m, s, k),
{
    assert(cost_sum(m, s, k + 1, k + 1) == 0);
}

/// The summed range can be split at any interior point.
pub proof fn lemma_cost_sum_split(m: Seq<Seq<i32>>, s: Seq<u32>, lo: int, mid: int, hi: int)
    requires
        lo <= mid <= hi,
    ensures
        cost_sum(m, s, lo, hi) == cost_sum(m, s, lo, mid) + cost_sum(m, s, mid, hi),
    decreases mid - lo,
{
    if lo < mid {
        lemma_cost_sum_split(m, s, lo + 1, mid, hi);
    }
}

/// Two orders whose edge terms agree over a range produce the same sum there.
pub proof fn lemma_cost_sum_congruent(
    m: Seq<Seq<i32>>,
    s1: Seq<u32>,
    s2: Seq<u32>,
    lo: int,
    hi: int,
)
    requires
        forall|k: int| lo <= k < hi ==> edge_term(m, s1, k) == edge_term(m, s2, k),
    ensures
        cost_sum(m, s1, lo, hi) == cost_sum(m, s2, lo, hi),
    decreases hi - lo,
{
    if lo < hi {
        lemma_cost_sum_congruent(m, s1, s2, lo + 1, hi);
    }
}

/// A sum over a range of edge terms, each of magnitude at most `c`, has
/// magnitude at most `(hi - lo) * c`.
pub proof fn lemma_cost_sum_bound(m: Seq<Seq<i32>>, s: Seq<u32>, lo: int, hi: int, c: int)
    requires
        lo <= hi,
        forall|k: int| lo <= k < hi ==> -c <= #[trigger] edge_term(m, s, k) <= c,
    ensures
        -((hi - lo) * c) <= cost_sum(m, s, lo, hi) <= (hi - lo) * c,
    decreases hi - lo,
{
    if lo < hi {
        lemma_cost_sum_bound(m, s, lo + 1, hi, c);
        assert(cost_sum(m, s, lo, hi) == edge_term(m, s, lo) + cost_sum(m, s, lo + 1, hi));
        assert((hi - lo - 1) * c + c == (hi - lo) * c) by (nonlinear_arith);
    } else {
        assert(cost_sum(m, s, lo, hi) == 0);
        assert((hi - lo) * c == 0) by (nonlinear_arith)
            requires
                hi == lo,
        ;
    }
}

/// The cost of any in-range tour stays well inside `i32`: each of the at
/// most `MAX_NODES` edges is bounded by `MAX_COST`.
pub proof fn lemma_tour_cost_bound(m: Seq<Seq<i32>>, s: Seq<u32>)
    requires
        s.len() <= 1023,
        seq_in_range(s, s.len() as int),
        matrix_bounded(m, s.len() as int),
    ensures
        -1023 * (MAX_COST as int) <= tour_cost(m, s) <= 1023 * (MAX_COST as int),
{
    let n = s.len() as int;
    if n == 0 {
        assert(cost_sum(m, s, 0, 0) == 0);
    } else {
        assert forall|k: int|
            0 <= k < n implies -(MAX_COST as int) <= #[trigger] edge_term(m, s, k) <= (
        MAX_COST as int) by {
            assert(0 <= (k + 1) % n < n);
        }
        lemma_cost_sum_bound(m, s, 0, n, MAX_COST as int);
    }
}

impl ATSP {
    /// Mathematical view of the cost matrix as a sequence of rows.
    pub open spec fn mat(&self) -> Seq<Seq<i32>> {
        self.matrix.deep_view()
    }

    /// The matrix is square of side `dimension`, the dimension fits the packed
    /// move encoding, and every entry is bounded by `MAX_COST`.
    pub open spec fn wf(&self) -> bool {
        &&& 1 <= self.dimension <= MAX_NODES
        &&& matrix_square(self.mat(), self.dimension as int)
        &&& matrix_bounded(self.mat(), self.dimension as int)
    }

    /// Run-time check of the instance invariant, for callers that assemble an
    /// instance from parsed data.
    pub fn check_wf(&self) -> (b: bool)
        ensures
            b == self.wf(),
    {
        if self.dimension < 1 || self.dimension > MAX_NODES as usize {
            return false;
        }
        if self.matrix.len() != self.dimension {
            assert(self.mat().len() != self.dimension);
            return false;
        }
        assert(self.mat().len() == self.dimension);
        let n = self.dimension;
        for i in 0..n
            invariant
                n == self.dimension,
                n == self.matrix@.len(),
                forall|p: int| 0 <= p < i ==> (#[trigger] self.mat()[p]).len() == n,
                forall|p: int, q: int|
                    0 <= p < i && 0 <= q < n ==> -MAX_COST <= #[trigger] self.mat()[p][q]
                        <= MAX_COST,
        {
            let row = &self.matrix[i];
            assert(self.mat()[i as int] == row@);
            if row.len() != n {
                return false;
            }
            for j in 0..n
                invariant
                    n == self.dimension,
                    n == self.matrix@.len(),
                    i < n,
                    self.mat()[i as int] == self.matrix@[i as int]@,
                    self.matrix@[i as int]@.len() == n,
                    forall|q: int|
                        0 <= q < j ==> -MAX_COST <= #[trigger] self.mat()[i as int][q] <= MAX_COST,
            {
                let e = self.matrix[i][j];
                if e < -MAX_COST || e > MAX_COST {
                    return false;
                }
            }
        }
        true
    }

    /// Validates a returned tour against the instance: the dimensions must
    /// agree, no node may repeat, and every node must lie in range.  The three
    /// failures are reported in that order of precedence.
    #[verifier::loop_isolation(false)]
    pub fn is_solution_valid(&self, solution: &Solution) -> (r: Result<(), MyError>)
        requires
            solution.wf(),
        ensures
            r is Ok <==> solution.dimension == self.dimension && is_permutation(
                solution.order@,
                self.dimension as int,
            ),
            r == Err::<(), MyError>(MyError::DimensionMismatch) <==> solution.dimension
                != self.dimension,
            r == Err::<(), MyError>(MyError::LengthMismatch) <==> solution.dimension
                == self.dimension && !seq_distinct(solution.order@),
            r == Err::<(), MyError>(MyError::OutOfRange) <==> solution.dimension == self.dimension
                && seq_distinct(solution.order@) && !seq_in_range(
                solution.order@,
                self.dimension as int,
            ),
    {
        if solution.dimension != self.dimension {
            return Err(MyError::DimensionMismatch);
        }
        let n = solution.order.len();
        for i in 0..n
            invariant
                n == solution.order@.len(),
                forall|k1: int, k2: int|
                    0 <= k1 < i && k1 < k2 < n ==> solution.order@[k1] != solution.order@[k2],
        {
            for j in (i + 1)..n
                invariant
                    n == solution.order@.len(),
                    i < n,
                    forall|k1: int, k2: int|
                        0 <= k1 < i && k1 < k2 < n ==> solution.order@[k1] != solution.order@[k2],
                    forall|k2: int| i < k2 < j ==> solution.order@[i as int] != solution.order@[k2],
            {
                if solution.order[i] == solution.order[j] {
                    assert(!seq_distinct(solution.order@)) by {
                        assert(solution.order@[i as int] == solution.order@[j as int]);
                    }
                    return Err(MyError::LengthMismatch);
                }
            }
        }
        assert(seq_distinct(solution.order@));
        for k in 0..n
            invariant
                n == solution.order@.len(),
                n == self.dimension,
                seq_distinct(solution.order@),
                forall|p: int| 0 <= p < k ==> (#[trigger] solution.order@[p]) < n,
        {
            if solution.order[k] as usize >= self.dimension {
                assert(!seq_in_range(solution.order@, self.dimension as int)) by {
                    assert(solution.order@[k as int] >= self.dimension);
                }
                return Err(MyError::OutOfRange);
            }
        }
        Ok(())
    }

    /// Full O(n) evaluation of a tour's cost; used for the initial tour and
    /// for validation, never in the search loop.
    pub fn cost_of_solution(&self, solution: &Solution) -> (c: i32)
        requires
            self.wf(),
            solution.wf(),
            solution.dimension == self.dimension,
            seq_in_range(solution.order@, self.dimension as int),
        ensures
            c as int == tour_cost(self.mat(), solution.order@),
    {
        let n = self.dimension;
        let ghost m = self.mat();
        let ghost s = solution.order@;
        let mut cost: i32 = 0;
        proof {
            lemma_cost_sum_bound(m, s, 0, 0, MAX_COST as int);
        }
        for i in 0..n
            invariant
                self.wf(),
                solution.wf(),
                solution.dimension == self.dimension,
                seq_in_range(solution.order@, self.dimension as int),
                n == self.dimension,
                m == self.mat(),
                s == solution.order@,
                cost as int == cost_sum(m, s, 0, i as int),
                -(i as int) * (MAX_COST as int) <= cost as int <= (i as int) * (MAX_COST as int),
        {
            let from = solution.order[i] as usize;
            let to = solution.order[(i + 1) % n] as usize;
            assert(self.mat()[from as int] == self.matrix@[from as int]@);
            let e = self.matrix[from][to];
            proof {
                assert(edge_term(m, s, i as int) == e as int);
                lemma_cost_sum_extend(m, s, 0, i as int);
                assert(forall|k: int|
                    0 <= k < n ==> -(MAX_COST as int) <= #[trigger] edge_term(m, s, k) <= (
                    MAX_COST as int));
                lemma_cost_sum_bound(m, s, 0, i + 1, MAX_COST as int);
                assert((i + 1) * (MAX_COST as int) <= 1023 * (MAX_COST as int)) by (nonlinear_arith)
                    requires
                        i + 1 <= 1023,
                ;
            }
            cost = cost + e;
        }
        cost
    }
}


/// Number of still-unvisited entries from position `lo` on.
pub open spec fn count_false_from(s: Seq<bool>, lo: int) -> int
    decreases s.len() - lo,
{
    if lo < 0 || lo >= s.len() {
        0
    } else {
        (if s[lo] {
            0int
        } else {
            1int
        }) + count_false_from(s, lo + 1)
    }
}

/// An all-false suffix counts its full length.
proof fn lemma_count_false_all(s: Seq<bool>, lo: int)
    requires
        0 <= lo <= s.len(),
        forall|k: int| lo <= k < s.len() ==> !s[k],
    ensures
        count_false_from(s, lo) == s.len() - lo,
    decreases s.len() - lo,
{
    if lo < s.len() {
        lemma_count_false_all(s, lo + 1);
    }
}

/// Marking one entry visited lowers the count by one, if it was unvisited
/// and inside the counted suffix.
proof fn lemma_count_false_update(s: Seq<bool>, j: int, lo: int)
    requires
        0 <= j < s.len(),
        0 <= lo <= s.len(),
    ensures
        count_false_from(s.update(j, true), lo) == count_false_from(s, lo) - (
        if lo <= j && !s[j] {
            1int
        } else {
            0int
        }),
    decreases s.len() - lo,
{
    if lo < s.len() {
        lemma_count_false_update(s, j, lo + 1);
    }
}

/// A positive count means some entry is still unvisited.
proof fn lemma_count_false_exists(s: Seq<bool>, lo: int)
    requires
        0 <= lo <= s.len(),
        count_false_from(s, lo) > 0,
    ensures
        exists|j: int| lo <= j < s.len() && !s[j],
    decreases s.len() - lo,
{
    if lo < s.len() {
        if s[lo] {
            lemma_count_false_exists(s, lo + 1);
        }
    }
}

/// The choice at position `i` of a greedy tour: among the nodes not visited
/// before position `i`, the chosen node has minimal cost from the previous
/// node, ties going to the lowest node index.
pub open spec fn greedy_step_ok(m: Seq<Seq<i32>>, order: Seq<u32>, i: int, n: int) -> bool {
    forall|v: int|
        0 <= v < n && !order.take(i).contains(v as u32) ==> m[order[i - 1] as int][order[i] as int]
            < #[trigger] m[order[i - 1] as int][v] || (m[order[i - 1] as int][order[i] as int]
            == m[order[i - 1] as int][v] && order[i] <= v)
}

/// Every step after the first makes the greedy nearest-neighbor choice.
pub open spec fn is_greedy_tour(m: Seq<Seq<i32>>, order: Seq<u32>, n: int) -> bool {
    forall|i: int| 1 <= i < n ==> greedy_step_ok(m, order, i, n)
}

/// Greedy nearest-neighbor construction from a fixed start node: repeatedly
/// appends the cheapest unvisited node, ties broken by the lowest node index.
#[verifier::loop_isolation(false)]
pub(crate) fn nearest_neighbor_order(instance: &ATSP, start: usize) -> (order: Vec<u32>)
    requires
        instance.wf(),
        start < instance.dimension,
    ensures
        is_permutation(order@, instance.dimension as int),
        order@[0] == start as u32,
        is_greedy_tour(instance.mat(), order@, instance.dimension as int),
{
    let n = instance.dimension;
    let mut visited: Vec<bool> = vec![false; n];
    proof {
        lemma_count_false_all(visited@, 0);
    }
    let mut order: Vec<u32> = Vec::new();
    let mut current = start;
    let ghost pre = visited@;
    visited[start] = true;
    proof {
        lemma_count_false_update(pre, start as int, 0);
    }
    order.push(start as u32);
    proof {
        assert forall|v: int|
            0 <= v < n implies (visited@[v] <==> exists|p: int|
                0 <= p < 1 && order@[p] == v as u32) by {
            if v == start {
                assert(order@[0] == start as u32);
            } else {
                assert(order@[0] == start as u32);
                assert(forall|p: int| 0 <= p < 1 ==> order@[p] != v as u32);
            }
        }
    }
    for i in 1..n
        invariant
            visited@.len() == n,
            order@.len() == i,
            current < n,
            order@[0] == start as u32,
            order@[i - 1] == current as u32,
            count_false_from(visited@, 0) == n - i,
            forall|p: int| 0 <= p < i ==> (#[trigger] order@[p]) < n,
            forall|p1: int, p2: int| 0 <= p1 < p2 < i ==> order@[p1] != order@[p2],
            forall|v: int|
                0 <= v < n ==> (visited@[v] <==> exists|p: int|
                    0 <= p < i && order@[p] == v as u32),
            forall|p: int| 1 <= p < i ==> greedy_step_ok(instance.mat(), order@, p, n as int),
    {
        let mut next: usize = 0;
        let mut min_cost = i32::MAX;
        proof {
            lemma_count_false_exists(visited@, 0);
        }
        for j in 0..n
            invariant
                current < n,
                visited@.len() == n,
                min_cost < i32::MAX ==> next < j && !visited@[next as int] && min_cost as int
                    == instance.mat()[current as int][next as int],
                min_cost < i32::MAX ==> forall|q: int|
                    0 <= q < j && !visited@[q] ==> instance.mat()[current as int][q] > min_cost || (
                    instance.mat()[current as int][q] == min_cost && next <= q),
                min_cost == i32::MAX ==> forall|q: int| 0 <= q < j ==> visited@[q],
        {
            if !visited[j] {
                assert(instance.mat()[current as int] == instance.matrix@[current as int]@);
                let c = instance.matrix[current][j];
                if c < min_cost {
                    next = j;
                    min_cost = c;
                }
            }
        }
        assert(min_cost < i32::MAX) by {
            if min_cost == i32::MAX {
                let w = choose|w: int| 0 <= w < n && !visited@[w];
                assert(visited@[w]);
            }
        }
        let ghost order_pre = order@;
        order.push(next as u32);
        let ghost pre2 = visited@;
        visited[next] = true;
        proof {
            lemma_count_false_update(pre2, next as int, 0);
            assert forall|p: int|
                1 <= p < i + 1 implies greedy_step_ok(instance.mat(), order@, p, n as int) by {
                if p < i {
                    assert(greedy_step_ok(instance.mat(), order_pre, p, n as int));
                    assert(order@.take(p) =~= order_pre.take(p));
                    assert forall|v: int|
                        0 <= v < n && !order@.take(p).contains(v as u32) implies instance.mat()[order@[
                        p - 1] as int][order@[p] as int] < #[trigger] instance.mat()[order@[p
                        - 1] as int][v] || (instance.mat()[order@[p - 1] as int][order@[p] as int]
                        == instance.mat()[order@[p - 1] as int][v] && order@[p] <= v) by {
                        assert(!order_pre.take(p).contains(v as u32));
                        assert(order@[p - 1] == order_pre[p - 1] && order@[p] == order_pre[p]);
                        assert(instance.mat()[order_pre[p - 1] as int][order_pre[p] as int]
                            < instance.mat()[order_pre[p - 1] as int][v] || (instance.mat()[order_pre[
                            p - 1] as int][order_pre[p] as int] == instance.mat()[order_pre[p
                            - 1] as int][v] && order_pre[p] <= v));
                    }
                    assert(greedy_step_ok(instance.mat(), order@, p, n as int));
                } else {
                    assert(order@.take(i as int) =~= order_pre);
                    assert(order@[i - 1] == current as u32 && order@[i as int] == next as u32);
                    assert forall|v: int|
                        0 <= v < n && !order@.take(i as int).contains(v as u32) implies instance.mat()[order@[
                        p - 1] as int][order@[p] as int] < #[trigger] instance.mat()[order@[p
                        - 1] as int][v] || (instance.mat()[order@[p - 1] as int][order@[p] as int]
                        == instance.mat()[order@[p - 1] as int][v] && order@[p] <= v) by {
                        assert(!pre2[v]) by {
                            if pre2[v] {
                                let w = choose|q: int| 0 <= q < i && order_pre[q] == v as u32;
                                assert(order_pre.contains(v as u32));
                            }
                        }
                        assert(instance.mat()[current as int][v] > min_cost as int || (
                        instance.mat()[current as int][v] == min_cost as int && next <= v));
                        assert(order@[p - 1] as int == current as int);
                        assert(order@[p] as int == next as int);
                    }
                    assert(greedy_step_ok(instance.mat(), order@, p, n as int));
                }
            }
            assert forall|v: int|
                0 <= v < n implies (visited@[v] <==> exists|p: int|
                    0 <= p < i + 1 && order@[p] == v as u32) by {
                if v == next {
                    assert(order@[i as int] == next as u32);
                } else {
                    if pre2[v] {
                        let w = choose|p: int| 0 <= p < i && order_pre[p] == v as u32;
                        assert(order@[w] == v as u32);
                    } else {
                        assert(forall|p: int|
                            0 <= p < i + 1 ==> order@[p] != v as u32) by {
                            assert(order@[i as int] == next as u32);
                        }
                    }
                }
            }
        }
        current = next;
    }
    proof {
        assert(order@.len() == n);
    }
    order
}

impl ATSP {
    /// Pure constructive heuristic: the nearest-neighbor tour started at
    /// node 0.
    pub fn nearest_neigbor(&self) -> (s: Solution)
        requires
            self.wf(),
        ensures
            s.wf(),
            s.dimension == self.dimension,
            is_permutation(s.order@, self.dimension as int),
            s.order@[0] == 0,
            is_greedy_tour(self.mat(), s.order@, self.dimension as int),
    {
        let order = nearest_neighbor_order(self, 0);
        match Solution::new(&order) {
            Ok(s) => s,
            Err(_) => {
                proof {
                    assert(false);
                }
                vstd::pervasive::unreached()
            },
        }
    }
}

} // verus!
