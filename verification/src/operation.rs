use vstd::prelude::*;
use rand::rngs::StdRng;
use crate::atsp::{tour_cost, ATSP};
use crate::deltas::{
    edge_swap_result, get_edge_swap_delta, get_node_swap_delta, swap_seq, reverse_span,
};
use crate::solution::{is_permutation, Solution};
use crate::utils::{gen_index, generate_unique_duplet};
use crate::MAX_NODES;

verus! {

/// Enabled-move-kind flags; a valid mask sets at least one of the two bits
/// and nothing else.
pub const NODE_SWAP_FLAG: u32 = 0b01;

pub const EDGE_SWAP_FLAG: u32 = 0b10;

pub open spec fn flags_valid(flags: u32) -> bool {
    1 <= flags <= 3
}

pub open spec fn node_swap_enabled(flags: u32) -> bool {
    flags == 1 || flags == 3
}

pub open spec fn edge_swap_enabled(flags: u32) -> bool {
    flags == 2 || flags == 3
}

/// Run-time test for the node-swap bit of a valid mask.
pub fn has_node_swap(flags: u32) -> (b: bool)
    ensures
        b == node_swap_enabled(flags),
{
    flags == 1 || flags == 3
}

/// Run-time test for the edge-reversal bit of a valid mask.
pub fn has_edge_swap(flags: u32) -> (b: bool)
    ensures
        b == edge_swap_enabled(flags),
{
    flags == 2 || flags == 3
}

#[derive(Debug, Clone, Copy, PartialEq, Eq, Structural)]
pub enum OperationType {
    NodeSwap,
    EdgeSwap,
}

/// A described perturbation of a tour: swapping two nodes, or reversing the
/// segment strictly between two positions.  A move packs into one integer:
/// the kind in the top two bits, then three 10-bit index fields; the third
/// field is reserved for wider moves and stays zero here.
#[derive(Debug, Clone, Copy, PartialEq, Eq, Structural)]
pub struct Operation {
    pub op_type: OperationType,
    pub first_idx: u16,
    pub second_idx: u16,
    pub third_idx: u16,
}

/// The move described by a packed integer: the inverse of the encoding.
pub open spec fn decode_op(v: int) -> Operation {
    Operation {
        op_type: if v / 0x4000_0000 == 0 {
            OperationType::NodeSwap
        } else {
            OperationType::EdgeSwap
        },
        first_idx: ((v / 0x10_0000) % 0x400) as u16,
        second_idx: ((v / 0x400) % 0x400) as u16,
        third_idx: (v % 0x400) as u16,
    }
}

impl Operation {
    /// All index fields fit their 10-bit encoding slots.
    pub open spec fn fits(&self) -> bool {
        self.first_idx < 1024 && self.second_idx < 1024 && self.third_idx < 1024
    }

    /// The two index fields address positions of a tour over `n` nodes.
    pub open spec fn valid_for(&self, n: int) -> bool {
        self.first_idx < n && self.second_idx < n
    }

    pub open spec fn kind_code(&self) -> int {
        match self.op_type {
            OperationType::NodeSwap => 0,
            OperationType::EdgeSwap => 1,
        }
    }

    /// The packed integer form of the move.
    pub open spec fn encoding(&self) -> int {
        self.kind_code() * 0x4000_0000 + self.first_idx * 0x10_0000 + self.second_idx * 0x400
            + self.third_idx
    }

    /// The tour produced by applying this move to the order `s`.
    pub open spec fn apply_spec(&self, s: Seq<u32>) -> Seq<u32> {
        match self.op_type {
            OperationType::NodeSwap => swap_seq(s, self.first_idx as int, self.second_idx as int),
            OperationType::EdgeSwap => edge_swap_result(
                s,
                self.first_idx as int,
                self.second_idx as int,
            ),
        }
    }

    pub fn new(op_type: OperationType, first_idx: u16, second_idx: u16, third_idx: u16) -> (op:
        Operation)
        ensures
            op == (Operation { op_type, first_idx, second_idx, third_idx }),
    {
        Operation { op_type, first_idx, second_idx, third_idx }
    }

    /// Packs the move into one integer: kind in the top two bits, then the
    /// three 10-bit index fields.
    pub fn to_int(&self) -> (r: u32)
        requires
            self.fits(),
        ensures
            r as int == self.encoding(),
    {
        let kind: u32 = match self.op_type {
            OperationType::NodeSwap => 0,
            OperationType::EdgeSwap => 1,
        };
        kind * 0x4000_0000 + (self.first_idx as u32) * 0x10_0000 + (self.second_idx as u32) * 0x400
            + (self.third_idx as u32)
    }

    /// Unpacks a move from its integer form; the two reserved kind patterns
    /// are excluded by the precondition.
    pub fn from_int(op: u32) -> (r: Operation)
        requires
            op < 0x8000_0000,
        ensures
            r == decode_op(op as int),
            r.fits(),
    {
        let kind = op / 0x4000_0000;
        let op_type = if kind == 0 {
            OperationType::NodeSwap
        } else {
            OperationType::EdgeSwap
        };
        let first_idx = ((op / 0x10_0000) % 0x400) as u16;
        let second_idx = ((op / 0x400) % 0x400) as u16;
        let third_idx = (op % 0x400) as u16;
        Operation { op_type, first_idx, second_idx, third_idx }
    }

    /// The packed encoding round-trips exactly: each field of a well-formed
    /// move is recovered from its encoding.
    pub proof fn lemma_encoding_round_trip(op: Operation)
        requires
            op.fits(),
        ensures
            0 <= op.encoding() < 0x8000_0000,
            decode_op(op.encoding()) == op,
    {
        let k = op.kind_code();
        let f = op.first_idx as int;
        let s = op.second_idx as int;
        let t = op.third_idx as int;
        let e = op.encoding();
        assert(e == 0x4000_0000 * k + (0x10_0000 * f + 0x400 * s + t));
        assert(0 <= 0x10_0000 * f + 0x400 * s + t < 0x4000_0000);
        vstd::arithmetic::div_mod::lemma_div_multiples_vanish_fancy(
            k,
            0x10_0000 * f + 0x400 * s + t,
            0x4000_0000,
        );
        assert(e == 0x10_0000 * (0x400 * k + f) + (0x400 * s + t));
        assert(0 <= 0x400 * s + t < 0x10_0000);
        vstd::arithmetic::div_mod::lemma_div_multiples_vanish_fancy(
            0x400 * k + f,
            0x400 * s + t,
            0x10_0000,
        );
        vstd::arithmetic::div_mod::lemma_mod_multiples_vanish(0x400 * k, f, 0x400);
        vstd::arithmetic::div_mod::lemma_small_mod(f as nat, 0x400);
        assert(e == 0x400 * (0x10_0000 * k + 0x400 * f + s) + t);
        vstd::arithmetic::div_mod::lemma_div_multiples_vanish_fancy(
            0x10_0000 * k + 0x400 * f + s,
            t,
            0x400,
        );
        vstd::arithmetic::div_mod::lemma_mod_multiples_vanish(0x4000 * k + f, s, 0x400);
        assert(0x10_0000 * k + 0x400 * f + s == 0x400 * (0x400 * k + f) + s);
        vstd::arithmetic::div_mod::lemma_mod_multiples_vanish(0x400 * k + f, s, 0x400);
        vstd::arithmetic::div_mod::lemma_small_mod(s as nat, 0x400);
        vstd::arithmetic::div_mod::lemma_mod_multiples_vanish(
            0x10_0000 * k + 0x400 * f + s,
            t,
            0x400,
        );
        vstd::arithmetic::div_mod::lemma_small_mod(t as nat, 0x400);
        assert(decode_op(e).first_idx == op.first_idx);
        assert(decode_op(e).second_idx == op.second_idx);
        assert(decode_op(e).third_idx == op.third_idx);
        assert(decode_op(e).op_type == op.op_type);
    }

    /// Applies the move to the tour in place.  Node swaps always apply;
    /// segment reversals with a degenerate span leave the tour untouched.
    #[verifier::loop_isolation(false)]
    pub fn apply(&self, solution: &mut Solution)
        requires
            old(solution).wf(),
            self.first_idx < old(solution).order@.len(),
            self.second_idx < old(solution).order@.len(),
        ensures
            final(solution).wf(),
            final(solution).dimension == old(solution).dimension,
            final(solution).order@ == self.apply_spec(old(solution).order@),
    {
        let ghost s0 = solution.order@;
        match self.op_type {
            OperationType::NodeSwap => {
                let i = self.first_idx as usize;
                let j = self.second_idx as usize;
                let a = solution.order[i];
                let b = solution.order[j];
                solution.order[i] = b;
                solution.order[j] = a;
                proof {
                    assert(solution.order@ =~= swap_seq(s0, i as int, j as int));
                }
            },
            OperationType::EdgeSwap => {
                let n = solution.order.len();
                let mut i = self.first_idx as usize;
                let mut j = self.second_idx as usize;
                if i > j {
                    let t = i;
                    i = j;
                    j = t;
                }
                let diff = j - i;
                if diff < 2 || diff == n - 1 {
                    proof {
                        assert(self.apply_spec(s0) == s0);
                    }
                    return ;
                }
                let ghost gi = i as int;
                let ghost gj = j as int;
                let mut l = i + 1;
                let mut r = j;
                while l < r
                    invariant
                        i + 1 <= l,
                        l <= r + 1,
                        r <= j,
                        l + r == i + 1 + j,
                        solution.order@.len() == n,
                        solution.dimension == old(solution).dimension,
                        forall|k: int|
                            0 <= k < n && !(gi + 1 <= k <= gj) ==> solution.order@[k] == s0[k],
                        forall|k: int|
                            gi + 1 <= k < l ==> solution.order@[k] == s0[gi + gj + 1 - k],
                        forall|k: int| r < k <= gj ==> solution.order@[k] == s0[gi + gj + 1 - k],
                        forall|k: int| l <= k <= r ==> solution.order@[k] == s0[k],
                    decreases r + 1 - l,
                {
                    let a = solution.order[l];
                    let b = solution.order[r];
                    solution.order[l] = b;
                    solution.order[r] = a;
                    l = l + 1;
                    r = r - 1;
                }
                proof {
                    assert(solution.order@ =~= reverse_span(s0, gi, gj));
                    assert(self.apply_spec(s0) == reverse_span(s0, gi, gj));
                }
            },
        }
    }

    /// Incremental cost of applying the move: the returned delta is exactly
    /// the cost of the perturbed tour minus the cost of the current tour,
    /// for any cost matrix, symmetric or not.
    pub fn evaluate(&self, solution: &Solution, instance: &ATSP) -> (delta: i32)
        requires
            instance.wf(),
            instance.dimension >= 3,
            solution.wf(),
            solution.dimension == instance.dimension,
            is_permutation(solution.order@, instance.dimension as int),
            self.valid_for(instance.dimension as int),
        ensures
            delta as int == tour_cost(instance.mat(), self.apply_spec(solution.order@)) - tour_cost(
                instance.mat(),
                solution.order@,
            ),
    {
        match self.op_type {
            OperationType::NodeSwap => get_node_swap_delta(
                &solution.order,
                self.first_idx as usize,
                self.second_idx as usize,
                &instance.matrix,
            ),
            OperationType::EdgeSwap => get_edge_swap_delta(
                &solution.order,
                self.first_idx as usize,
                self.second_idx as usize,
                &instance.matrix,
            ),
        }
    }
}

/// Draws one random move: two distinct random positions, and a random kind
/// among the enabled ones.
pub fn random_operation(rng: &mut StdRng, num_nodes: u16, op_flags: u32) -> (op: Operation)
    requires
        3 <= num_nodes <= MAX_NODES,
        flags_valid(op_flags),
    ensures
        op.op_type == OperationType::NodeSwap ==> node_swap_enabled(op_flags),
        op.op_type == OperationType::EdgeSwap ==> edge_swap_enabled(op_flags),
        op.valid_for(num_nodes as int),
        op.first_idx != op.second_idx,
        op.third_idx == 0,
        op.fits(),
{
    let (first, second) = generate_unique_duplet(num_nodes as usize, rng);
    let first = first as u16;
    let second = second as u16;
    if op_flags == NODE_SWAP_FLAG {
        return Operation::new(OperationType::NodeSwap, first, second, 0);
    }
    if op_flags == EDGE_SWAP_FLAG {
        return Operation::new(OperationType::EdgeSwap, first, second, 0);
    }
    let pick = gen_index(rng, 0, 2);
    if pick == 0 {
        Operation::new(OperationType::NodeSwap, first, second, 0)
    } else {
        Operation::new(OperationType::EdgeSwap, first, second, 0)
    }
}


/// The moves enumerated for `n` nodes, in the documented order: first all
/// node swaps `(i, j)` with `i < j` in lexicographic order, then all segment
/// reversals `(i, j)` with `j >= i + 2`, excluding the cyclically adjacent
/// wraparound pair `(0, n-1)`, in lexicographic order.

/// Node-swap pairs left in rows `i0` and later.
pub open spec fn node_rows_remaining(n: int, i0: int) -> int
    decreases n - i0,
{
    if i0 >= n - 1 {
        0
    } else {
        (n - 1 - i0) + node_rows_remaining(n, i0 + 1)
    }
}

/// The `idx`-th node-swap pair counting from row `i0`.
pub open spec fn node_pair_from(n: int, i0: int, idx: int) -> (int, int)
    decreases n - i0,
{
    if idx < n - 1 - i0 || i0 >= n - 1 {
        (i0, i0 + 1 + idx)
    } else {
        node_pair_from(n, i0 + 1, idx - (n - 1 - i0))
    }
}

/// Reversal pairs whose first index is `i`: the first row loses the
/// wraparound pair `(0, n-1)`.
pub open spec fn edge_row_count(n: int, i: int) -> int {
    if i == 0 {
        n - 3
    } else if i <= n - 3 {
        n - 2 - i
    } else {
        0
    }
}

/// Reversal pairs left in rows `i0` and later.
pub open spec fn edge_rows_remaining(n: int, i0: int) -> int
    decreases n - i0,
{
    if i0 >= n - 2 {
        0
    } else {
        edge_row_count(n, i0) + edge_rows_remaining(n, i0 + 1)
    }
}

/// The `idx`-th reversal pair counting from row `i0`.
pub open spec fn edge_pair_from(n: int, i0: int, idx: int) -> (int, int)
    decreases n - i0,
{
    if idx < edge_row_count(n, i0) || i0 >= n - 2 {
        (i0, i0 + 2 + idx)
    } else {
        edge_pair_from(n, i0 + 1, idx - edge_row_count(n, i0))
    }
}

/// How many moves the enumeration holds before the reversal block starts.
pub open spec fn nbhd_node_len(n: int, flags: u32) -> int {
    if node_swap_enabled(flags) {
        node_rows_remaining(n, 0)
    } else {
        0
    }
}

/// Total number of enumerated moves.
pub open spec fn nbhd_len(n: int, flags: u32) -> int {
    nbhd_node_len(n, flags) + if edge_swap_enabled(flags) {
        edge_rows_remaining(n, 0)
    } else {
        0
    }
}

/// The move at position `idx` of the enumeration.
pub open spec fn nbhd_op(n: int, flags: u32, idx: int) -> Operation {
    if node_swap_enabled(flags) && idx < node_rows_remaining(n, 0) {
        let p = node_pair_from(n, 0, idx);
        Operation {
            op_type: OperationType::NodeSwap,
            first_idx: p.0 as u16,
            second_idx: p.1 as u16,
            third_idx: 0,
        }
    } else {
        let p = edge_pair_from(n, 0, idx - nbhd_node_len(n, flags));
        Operation {
            op_type: OperationType::EdgeSwap,
            first_idx: p.0 as u16,
            second_idx: p.1 as u16,
            third_idx: 0,
        }
    }
}

/// Twice the node-swap count from row `i0` on is `(n-1-i0) * (n-i0)`.
pub proof fn lemma_node_rows_rec(n: int, i0: int)
    requires
        0 <= i0 <= n,
    ensures
        2 * node_rows_remaining(n, i0) == (n - 1 - i0) * (n - i0),
    decreases n - i0,
{
    if i0 >= n - 1 {
        assert((n - 1 - i0) * (n - i0) == 0) by (nonlinear_arith)
            requires
                i0 == n - 1 || i0 == n,
        ;
    } else {
        lemma_node_rows_rec(n, i0 + 1);
        assert(2 * (n - 1 - i0) + (n - 2 - i0) * (n - 1 - i0) == (n - 1 - i0) * (n - i0))
            by (nonlinear_arith);
    }
}

/// Twice the reversal count from row `i0 >= 1` on is `(n-2-i0) * (n-1-i0)`.
pub proof fn lemma_edge_rows_rec(n: int, i0: int)
    requires
        1 <= i0 <= n - 1,
    ensures
        2 * edge_rows_remaining(n, i0) == (n - 2 - i0) * (n - 1 - i0),
    decreases n - i0,
{
    if i0 >= n - 2 {
        assert((n - 2 - i0) * (n - 1 - i0) == 0) by (nonlinear_arith)
            requires
                i0 == n - 2 || i0 == n - 1,
        ;
    } else {
        lemma_edge_rows_rec(n, i0 + 1);
        assert(2 * (n - 2 - i0) + (n - 3 - i0) * (n - 2 - i0) == (n - 2 - i0) * (n - 1 - i0))
            by (nonlinear_arith);
    }
}

/// Closed forms of the two block sizes: `n(n-1)/2` node swaps and
/// `n(n-1)/2 - n` reversals.
pub proof fn lemma_nbhd_counts(n: int)
    requires
        3 <= n,
    ensures
        node_rows_remaining(n, 0) == n * (n - 1) / 2,
        edge_rows_remaining(n, 0) == n * (n - 1) / 2 - n,
{
    lemma_node_rows_rec(n, 0);
    assert((n - 1) * n == n * (n - 1)) by (nonlinear_arith);
    vstd::arithmetic::div_mod::lemma_div_multiples_vanish(node_rows_remaining(n, 0), 2);
    assert(node_rows_remaining(n, 0) == n * (n - 1) / 2);
    if n == 3 {
        assert(edge_rows_remaining(3, 1) == 0);
        assert(edge_rows_remaining(3, 0) == 0);
    } else {
        lemma_edge_rows_rec(n, 1);
        assert(edge_rows_remaining(n, 0) == (n - 3) + edge_rows_remaining(n, 1));
        assert(2 * edge_rows_remaining(n, 0) == 2 * (n - 3) + (n - 3) * (n - 2));
        assert(2 * (n - 3) + (n - 3) * (n - 2) == n * (n - 1) - 2 * n) by (nonlinear_arith);
    }
}

/// Row counts never go negative, and a row that exists holds at least its
/// own pairs.
pub proof fn lemma_node_rows_pos(n: int, i0: int)
    ensures
        node_rows_remaining(n, i0) >= 0,
        i0 <= n - 2 ==> node_rows_remaining(n, i0) >= n - 1 - i0,
    decreases n - i0,
{
    if i0 < n - 1 {
        lemma_node_rows_pos(n, i0 + 1);
    }
}

pub proof fn lemma_edge_rows_pos(n: int, i0: int)
    ensures
        edge_rows_remaining(n, i0) >= 0,
        1 <= i0 <= n - 3 ==> edge_rows_remaining(n, i0) >= n - 2 - i0,
        i0 == 0 && n >= 4 ==> edge_rows_remaining(n, i0) >= n - 3,
    decreases n - i0,
{
    if i0 < n - 2 {
        lemma_edge_rows_pos(n, i0 + 1);
    }
}

/// Shape of the node-swap enumeration from row `i0`: the pair at `idx` is in
/// range, the last index holds the last pair, and stepping the index steps
/// the pair lexicographically.
pub proof fn lemma_node_pair_props(n: int, i0: int, idx: int)
    requires
        0 <= i0 <= n - 1,
        0 <= idx < node_rows_remaining(n, i0),
    ensures
        ({
            let p = node_pair_from(n, i0, idx);
            &&& i0 <= p.0 <= n - 2
            &&& p.0 + 1 <= p.1 <= n - 1
            &&& (idx == node_rows_remaining(n, i0) - 1 <==> (p.0 == n - 2 && p.1 == n - 1))
            &&& (idx + 1 < node_rows_remaining(n, i0) ==> node_pair_from(n, i0, idx + 1) == (
            if p.1 < n - 1 {
                (p.0, p.1 + 1)
            } else {
                (p.0 + 1, p.0 + 2)
            }))
        }),
    decreases n - i0,
{
    let rem = node_rows_remaining(n, i0);
    assert(rem == if i0 >= n - 1 {
        0int
    } else {
        (n - 1 - i0) + node_rows_remaining(n, i0 + 1)
    });
    lemma_node_rows_pos(n, i0 + 1);
    if idx < n - 1 - i0 {
        let p = node_pair_from(n, i0, idx);
        assert(p == (i0, i0 + 1 + idx));
        if idx == rem - 1 && i0 + 1 <= n - 2 {
            assert(node_rows_remaining(n, i0 + 1) >= n - 1 - (i0 + 1));
            assert(false);
        }
        if p.0 == n - 2 && p.1 == n - 1 {
            assert(node_rows_remaining(n, n - 1) == 0);
        }
        if idx + 1 < rem {
            if idx + 1 < n - 1 - i0 {
                assert(node_pair_from(n, i0, idx + 1) == (i0, i0 + 2 + idx));
            } else {
                assert(idx + 1 == n - 1 - i0);
                assert(node_pair_from(n, i0, idx + 1) == node_pair_from(n, i0 + 1, 0));
                if i0 + 1 >= n - 1 {
                    assert(node_rows_remaining(n, i0 + 1) == 0);
                    assert(false);
                }
                assert(node_pair_from(n, i0 + 1, 0) == (i0 + 1, i0 + 2));
            }
        }
    } else {
        assert(i0 < n - 1);
        lemma_node_pair_props(n, i0 + 1, idx - (n - 1 - i0));
        assert(node_pair_from(n, i0, idx) == node_pair_from(n, i0 + 1, idx - (n - 1 - i0)));
        if idx + 1 < rem {
            assert(node_pair_from(n, i0, idx + 1) == node_pair_from(n, i0 + 1, idx + 1 - (n - 1
                - i0)));
        }
    }
}

/// Shape of the reversal enumeration from row `i0`, stated like the
/// node-swap counterpart; the first row is one pair short because the
/// wraparound pair is excluded.
pub proof fn lemma_edge_pair_props(n: int, i0: int, idx: int)
    requires
        4 <= n,
        0 <= i0 <= n - 2,
        0 <= idx < edge_rows_remaining(n, i0),
    ensures
        ({
            let p = edge_pair_from(n, i0, idx);
            &&& i0 <= p.0 <= n - 3
            &&& p.0 + 2 <= p.1 <= n - 1
            &&& !(p.0 == 0 && p.1 == n - 1)
            &&& (idx == edge_rows_remaining(n, i0) - 1 <==> (p.0 == n - 3 && p.1 == n - 1))
            &&& (idx + 1 < edge_rows_remaining(n, i0) ==> edge_pair_from(n, i0, idx + 1) == (
            if p.0 == 0 && p.1 < n - 2 {
                (0int, p.1 + 1)
            } else if p.0 >= 1 && p.1 < n - 1 {
                (p.0, p.1 + 1)
            } else {
                (p.0 + 1, p.0 + 3)
            }))
        }),
    decreases n - i0,
{
    let rem = edge_rows_remaining(n, i0);
    let cnt = edge_row_count(n, i0);
    assert(rem == if i0 >= n - 2 {
        0int
    } else {
        cnt + edge_rows_remaining(n, i0 + 1)
    });
    lemma_edge_rows_pos(n, i0 + 1);
    if idx < cnt {
        let p = edge_pair_from(n, i0, idx);
        assert(p == (i0, i0 + 2 + idx));
        if idx == rem - 1 && i0 + 1 <= n - 3 {
            assert(edge_rows_remaining(n, i0 + 1) >= n - 2 - (i0 + 1));
            assert(false);
        }
        if p.0 == n - 3 && p.1 == n - 1 {
            assert(edge_rows_remaining(n, n - 2) == 0);
        }
        if idx + 1 < rem {
            if idx + 1 < cnt {
                assert(edge_pair_from(n, i0, idx + 1) == (i0, i0 + 3 + idx));
            } else {
                assert(idx + 1 == cnt);
                assert(edge_pair_from(n, i0, idx + 1) == edge_pair_from(n, i0 + 1, 0));
                if i0 + 1 > n - 3 {
                    assert(edge_rows_remaining(n, i0 + 1) == if i0 + 1 >= n - 2 {
                        0int
                    } else {
                        edge_row_count(n, i0 + 1) + edge_rows_remaining(n, i0 + 2)
                    });
                    assert(edge_rows_remaining(n, n - 2) == 0);
                    assert(false);
                }
                assert(edge_row_count(n, i0 + 1) == n - 2 - (i0 + 1));
                assert(edge_pair_from(n, i0 + 1, 0) == (i0 + 1, i0 + 3));
            }
        }
    } else {
        assert(i0 < n - 2);
        lemma_edge_pair_props(n, i0 + 1, idx - cnt);
        assert(edge_pair_from(n, i0, idx) == edge_pair_from(n, i0 + 1, idx - cnt));
        if idx + 1 < rem {
            assert(edge_pair_from(n, i0, idx + 1) == edge_pair_from(n, i0 + 1, idx + 1 - cnt));
        }
    }
}


/// Deterministic, restartable enumeration of the move neighborhood for a
/// given node count and enabled-kinds mask.  A ghost position tracks how far
/// the enumeration has come: `next` yields exactly the move at that position
/// and `size` equals the total number of positions, so a full sweep yields
/// exactly `size()` moves.
pub struct NeighborhoodIterator {
    pub num_nodes: u16,
    pub op_flags: u32,
    pub current_op: Option<Operation>,
    pub done: bool,
    pub pos: Ghost<int>,
}

impl NeighborhoodIterator {
    pub open spec fn n(&self) -> int {
        self.num_nodes as int
    }

    pub open spec fn wf(&self) -> bool {
        &&& 3 <= self.num_nodes <= MAX_NODES
        &&& flags_valid(self.op_flags)
        &&& 0 <= self.pos@ <= nbhd_len(self.n(), self.op_flags)
        &&& (self.done ==> self.pos@ == nbhd_len(self.n(), self.op_flags))
        &&& (!self.done ==> (self.current_op is None <==> self.pos@ == 0))
        &&& (!self.done && self.pos@ > 0 ==> self.current_op == Some(
            nbhd_op(self.n(), self.op_flags, self.pos@ - 1),
        ))
    }

    /// A fresh enumerator, positioned before the first move.
    pub fn new(num_nodes: u16, op_flags: u32) -> (it: NeighborhoodIterator)
        requires
            3 <= num_nodes <= MAX_NODES,
            flags_valid(op_flags),
        ensures
            it.wf(),
            it.num_nodes == num_nodes,
            it.op_flags == op_flags,
            it.pos@ == 0,
            !it.done,
    {
        proof {
            lemma_node_rows_pos(num_nodes as int, 0);
            lemma_edge_rows_pos(num_nodes as int, 0);
        }
        NeighborhoodIterator {
            num_nodes,
            op_flags,
            current_op: None,
            done: false,
            pos: Ghost(0),
        }
    }

    /// Closed-form size of the enumeration: `n(n-1)/2` node swaps and
    /// `n(n-1)/2 - n` segment reversals, summed over the enabled kinds.
    pub fn size(&self) -> (r: u32)
        requires
            self.wf(),
        ensures
            r as int == nbhd_len(self.n(), self.op_flags),
    {
        let n = self.num_nodes as u32;
        proof {
            lemma_nbhd_counts(n as int);
            assert(n * (n - 1) / 2 >= n) by (nonlinear_arith)
                requires
                    3 <= n <= 1023,
            ;
            assert(n * (n - 1) <= 1023 * 1022) by (nonlinear_arith)
                requires
                    3 <= n <= 1023,
            ;
        }
        let mut size: u32 = 0;
        if has_node_swap(self.op_flags) {
            size = size + n * (n - 1) / 2;
        }
        if has_edge_swap(self.op_flags) {
            size = size + (n * (n - 1) / 2 - n);
        }
        size
    }

    /// Yields the packed form of the move at the current position and steps
    /// the position, or nothing once every move has been yielded.
    #[verifier::rlimit(80)]
    pub fn next(&mut self) -> (r: Option<u32>)
        requires
            old(self).wf(),
        ensures
            final(self).wf(),
            final(self).num_nodes == old(self).num_nodes,
            final(self).op_flags == old(self).op_flags,
            old(self).pos@ < nbhd_len(old(self).n(), old(self).op_flags) ==> final(self).pos@ == old(
                self,
            ).pos@ + 1 && (r matches Some(v) && v as int == nbhd_op(
                old(self).n(),
                old(self).op_flags,
                old(self).pos@,
            ).encoding()),
            old(self).pos@ >= nbhd_len(old(self).n(), old(self).op_flags) ==> final(self).pos@
                == old(self).pos@ && r is None,
    {
        let ghost n = self.n();
        let ghost flags = self.op_flags;
        let ghost pos0 = self.pos@;
        let nn = self.num_nodes;
        proof {
            lemma_node_rows_pos(n, 0);
            lemma_edge_rows_pos(n, 0);
            if n == 3 {
                assert(edge_row_count(3, 0) == 0);
                assert(edge_rows_remaining(3, 1) == 0);
                assert(edge_rows_remaining(3, 0) == 0);
            }
        }
        if self.done {
            return None;
        }
        match self.current_op {
            None => {
                // before the first move
                if has_node_swap(self.op_flags) {
                    let op = Operation::new(OperationType::NodeSwap, 0, 1, 0);
                    proof {
                        assert(node_pair_from(n, 0, 0) == (0int, 1int));
                        assert(nbhd_op(n, flags, 0) == op);
                    }
                    self.current_op = Some(op);
                    self.pos = Ghost(1);
                    Some(op.to_int())
                } else {
                    if nn == 3 {
                        self.done = true;
                        return None;
                    }
                    let op = Operation::new(OperationType::EdgeSwap, 0, 2, 0);
                    proof {
                        assert(edge_row_count(n, 0) == n - 3);
                        assert(edge_pair_from(n, 0, 0) == (0int, 2int));
                        assert(nbhd_op(n, flags, 0) == op);
                    }
                    self.current_op = Some(op);
                    self.pos = Ghost(1);
                    Some(op.to_int())
                }
            },
            Some(op) => {
                match op.op_type {
                    OperationType::NodeSwap => {
                        proof {
                            // a node-swap current move puts the position in the
                            // node block
                            if pos0 - 1 >= node_rows_remaining(n, 0) || !node_swap_enabled(flags) {
                                assert(nbhd_op(n, flags, pos0 - 1).op_type is EdgeSwap);
                            }
                            lemma_node_pair_props(n, 0, pos0 - 1);
                        }
                        let ghost p = node_pair_from(n, 0, pos0 - 1);
                        proof {
                            assert(op.first_idx == p.0 && op.second_idx == p.1);
                        }
                        let (ni, nj) = if op.second_idx >= nn - 1 {
                            (op.first_idx + 1, op.first_idx + 2)
                        } else {
                            (op.first_idx, op.second_idx + 1)
                        };
                        if ni >= nn - 1 {
                            // node block exhausted
                            proof {
                                if pos0 < node_rows_remaining(n, 0) {
                                    lemma_node_pair_props(n, 0, pos0);
                                    assert(false);
                                }
                                assert(pos0 == node_rows_remaining(n, 0));
                            }
                            if has_edge_swap(self.op_flags) {
                                if nn == 3 {
                                    self.done = true;
                                    return None;
                                }
                                let op2 = Operation::new(OperationType::EdgeSwap, 0, 2, 0);
                                proof {
                                    assert(edge_row_count(n, 0) == n - 3);
                                    assert(edge_pair_from(n, 0, 0) == (0int, 2int));
                                    assert(nbhd_op(n, flags, pos0) == op2);
                                }
                                self.current_op = Some(op2);
                                self.pos = Ghost(pos0 + 1);
                                Some(op2.to_int())
                            } else {
                                self.done = true;
                                None
                            }
                        } else {
                            let op2 = Operation::new(OperationType::NodeSwap, ni, nj, 0);
                            proof {
                                if pos0 >= node_rows_remaining(n, 0) {
                                    // then the previous pair was the last one
                                    assert(p.0 == n - 2 && p.1 == n - 1);
                                    assert(false);
                                }
                                lemma_node_pair_props(n, 0, pos0);
                                assert(node_pair_from(n, 0, pos0) == (ni as int, nj as int));
                                assert(nbhd_op(n, flags, pos0) == op2);
                            }
                            self.current_op = Some(op2);
                            self.pos = Ghost(pos0 + 1);
                            Some(op2.to_int())
                        }
                    },
                    OperationType::EdgeSwap => {
                        let ghost nlen = nbhd_node_len(n, flags);
                        let ghost eidx = pos0 - 1 - nlen;
                        proof {
                            if pos0 - 1 < nlen {
                                assert(nbhd_op(n, flags, pos0 - 1).op_type is NodeSwap);
                            }
                            assert(edge_swap_enabled(flags));
                            if n == 3 {
                                assert(false);
                            }
                            lemma_edge_pair_props(n, 0, eidx);
                        }
                        let ghost p = edge_pair_from(n, 0, eidx);
                        proof {
                            assert(op.first_idx == p.0 && op.second_idx == p.1);
                        }
                        let at_row_end = op.second_idx >= nn - 1 || (op.first_idx == 0
                            && op.second_idx >= nn - 2);
                        let (ni, nj) = if at_row_end {
                            (op.first_idx + 1, op.first_idx + 3)
                        } else {
                            (op.first_idx, op.second_idx + 1)
                        };
                        if ni == nn - 1 || nj == nn {
                            proof {
                                if eidx + 1 < edge_rows_remaining(n, 0) {
                                    lemma_edge_pair_props(n, 0, eidx + 1);
                                    assert(false);
                                }
                                assert(pos0 == nbhd_len(n, flags));
                            }
                            self.done = true;
                            None
                        } else {
                            let op2 = Operation::new(OperationType::EdgeSwap, ni, nj, 0);
                            proof {
                                if eidx + 1 >= edge_rows_remaining(n, 0) {
                                    assert(p.0 == n - 3 && p.1 == n - 1);
                                    assert(false);
                                }
                                lemma_edge_pair_props(n, 0, eidx + 1);
                                assert(edge_pair_from(n, 0, eidx + 1) == (ni as int, nj as int));
                                assert(nbhd_op(n, flags, pos0) == op2);
                            }
                            self.current_op = Some(op2);
                            self.pos = Ghost(pos0 + 1);
                            Some(op2.to_int())
                        }
                    },
                }
            },
        }
    }
}


/// The packed forms of the whole enumeration, in order.
pub open spec fn nbhd_encodings(n: int, flags: u32) -> Seq<u32> {
    Seq::new(nbhd_len(n, flags) as nat, |k: int| nbhd_op(n, flags, k).encoding() as u32)
}

/// Every enumerated move is well-formed: its indices address the tour, fit
/// the encoding, name two distinct positions in increasing order, and its
/// kind is one of the enabled ones.
pub proof fn lemma_nbhd_op_valid(n: int, flags: u32, idx: int)
    requires
        3 <= n <= 1023,
        flags_valid(flags),
        0 <= idx < nbhd_len(n, flags),
    ensures
        ({
            let op = nbhd_op(n, flags, idx);
            &&& op.valid_for(n)
            &&& op.fits()
            &&& op.third_idx == 0
            &&& op.first_idx < op.second_idx
            &&& (op.op_type is NodeSwap ==> node_swap_enabled(flags) && idx < nbhd_node_len(
                n,
                flags,
            ))
            &&& (op.op_type is EdgeSwap ==> edge_swap_enabled(flags) && idx >= nbhd_node_len(
                n,
                flags,
            ))
        }),
{
    lemma_node_rows_pos(n, 0);
    lemma_edge_rows_pos(n, 0);
    if node_swap_enabled(flags) && idx < node_rows_remaining(n, 0) {
        lemma_node_pair_props(n, 0, idx);
    } else {
        if !edge_swap_enabled(flags) {
            assert(false);
        }
        if n == 3 {
            assert(edge_row_count(3, 0) == 0);
            assert(edge_rows_remaining(3, 1) == 0);
            assert(edge_rows_remaining(3, 0) == 0);
            assert(false);
        }
        lemma_edge_pair_props(n, 0, idx - nbhd_node_len(n, flags));
    }
}

/// Materializes the whole enumeration as a list of packed moves.
#[verifier::loop_isolation(false)]
pub fn collect_neighborhood(num_nodes: u16, op_flags: u32) -> (ops: Vec<u32>)
    requires
        3 <= num_nodes <= MAX_NODES,
        flags_valid(op_flags),
    ensures
        ops@ == nbhd_encodings(num_nodes as int, op_flags),
{
    let ghost n = num_nodes as int;
    let mut it = NeighborhoodIterator::new(num_nodes, op_flags);
    let mut ops: Vec<u32> = Vec::new();
    let mut finished = false;
    proof {
        lemma_node_rows_pos(n, 0);
        lemma_edge_rows_pos(n, 0);
    }
    while !finished
        invariant
            it.wf(),
            it.num_nodes == num_nodes,
            it.op_flags == op_flags,
            ops@.len() == it.pos@,
            finished ==> it.pos@ == nbhd_len(n, op_flags),
            forall|k: int|
                0 <= k < it.pos@ ==> ops@[k] as int == nbhd_op(n, op_flags, k).encoding(),
        decreases nbhd_len(n, op_flags) - it.pos@ + if finished {
            0int
        } else {
            1int
        },
    {
        match it.next() {
            Some(v) => {
                ops.push(v);
            },
            None => {
                finished = true;
            },
        }
    }
    proof {
        assert forall|k: int| 0 <= k < ops@.len() implies ops@[k] == nbhd_encodings(
            n,
            op_flags,
        )[k] by {
            lemma_nbhd_op_valid(n, op_flags, k);
            Operation::lemma_encoding_round_trip(nbhd_op(n, op_flags, k));
        }
        assert(ops@ =~= nbhd_encodings(n, op_flags));
    }
    ops
}


/// Applying any in-range move to a permutation yields a permutation.
pub proof fn lemma_apply_preserves_permutation(op: Operation, s: Seq<u32>, n: int)
    requires
        crate::solution::is_permutation(s, n),
        op.first_idx < s.len(),
        op.second_idx < s.len(),
    ensures
        crate::solution::is_permutation(op.apply_spec(s), n),
{
    match op.op_type {
        OperationType::NodeSwap => {
            crate::deltas::lemma_swap_preserves_permutation(
                s,
                op.first_idx as int,
                op.second_idx as int,
                n,
            );
        },
        OperationType::EdgeSwap => {
            crate::deltas::lemma_edge_swap_preserves_permutation(
                s,
                op.first_idx as int,
                op.second_idx as int,
                n,
            );
        },
    }
}

} // verus!
