use vstd::prelude::*;
use rand::rngs::StdRng;
use std::collections::VecDeque;
use crate::atsp::{lemma_tour_cost_bound, tour_cost, ATSP};
use crate::operation::{
    collect_neighborhood, edge_swap_enabled, flags_valid, lemma_apply_preserves_permutation,
    lemma_edge_rows_pos, lemma_nbhd_op_valid, lemma_node_rows_pos, nbhd_encodings, nbhd_len,
    nbhd_op, node_swap_enabled, random_operation, decode_op, NeighborhoodIterator, Operation,
};
use crate::search::{sat_add, sat_inc, Context, Explorer};
use crate::solution::{is_permutation, lemma_permutation_from_multiset, Solution};
use crate::utils::{gen_index, randomize_by_swaps, seed_rng, shuffle};
use crate::MAX_NODES;

verus! {

/// Cost change that applying `op` to the order `s` would cause.
pub open spec fn op_delta(instance: ATSP, s: Seq<u32>, op: Operation) -> int {
    tour_cost(instance.mat(), op.apply_spec(s)) - tour_cost(instance.mat(), s)
}

/// No enumerated move improves the tour: the tour is a local optimum of the
/// enabled neighborhood.
pub open spec fn is_local_optimum(instance: ATSP, s: Seq<u32>, flags: u32) -> bool {
    forall|idx: int|
        0 <= idx < nbhd_len(instance.dimension as int, flags) ==> op_delta(
            instance,
            s,
            #[trigger] nbhd_op(instance.dimension as int, flags, idx),
        ) >= 0
}

/// The do-nothing strategy: it never touches the tour and stops at once,
/// which turns the engine into a pure constructive heuristic.
pub struct PassThroughExplorer {}

impl Explorer for PassThroughExplorer {
    open spec fn wf(&self, instance: &ATSP) -> bool {
        true
    }

    open spec fn step_post(
        pre: Self,
        post: Self,
        instance: ATSP,
        sol_pre: Solution,
        sol_post: Solution,
        ctx_pre: Context,
        ctx_post: Context,
    ) -> bool {
        &&& sol_post.order@ == sol_pre.order@
        &&& ctx_post.evaluations == ctx_pre.evaluations
        &&& ctx_post.steps == ctx_pre.steps
        &&& ctx_post.current_cost == ctx_pre.current_cost
    }

    open spec fn stop_spec(&self, ctx: Context) -> bool {
        true
    }

    fn explore(&mut self, instance: &ATSP, solution: &mut Solution, context: &mut Context) {
    }

    fn stop_condition(&self, ctx: &Context) -> (b: bool) {
        true
    }
}

/// Pure random search: every step throws the tour away and draws a fresh
/// random permutation, evaluated from scratch.
pub struct RandomExplorer {
    pub rng: StdRng,
}

impl RandomExplorer {
    pub fn new(seed: u64) -> RandomExplorer {
        RandomExplorer { rng: seed_rng(seed) }
    }
}

impl Explorer for RandomExplorer {
    open spec fn wf(&self, instance: &ATSP) -> bool {
        true
    }

    open spec fn step_post(
        pre: Self,
        post: Self,
        instance: ATSP,
        sol_pre: Solution,
        sol_post: Solution,
        ctx_pre: Context,
        ctx_post: Context,
    ) -> bool {
        &&& sol_post.order@.to_multiset() == sol_pre.order@.to_multiset()
        &&& ctx_post.evaluations == sat_inc(ctx_pre.evaluations)
        &&& ctx_post.steps == ctx_pre.steps
    }

    open spec fn stop_spec(&self, ctx: Context) -> bool {
        false
    }

    fn explore(&mut self, instance: &ATSP, solution: &mut Solution, context: &mut Context) {
        let ghost before = solution.order@;
        randomize_by_swaps(solution, &mut self.rng);
        proof {
            lemma_permutation_from_multiset(before, solution.order@, instance.dimension as int);
        }
        let new_cost = instance.cost_of_solution(solution);
        if context.evaluations < u32::MAX {
            context.evaluations = context.evaluations + 1;
        }
        context.current_cost = new_cost;
    }

    fn stop_condition(&self, ctx: &Context) -> (b: bool) {
        false
    }
}

/// Random walk: every step draws one random enabled move and applies it
/// unconditionally, tracking the cost incrementally.
pub struct RandomWalkExplorer {
    pub rng: StdRng,
    pub op_flags: u32,
}

impl RandomWalkExplorer {
    pub fn new(seed: u64, op_flags: u32) -> (r: RandomWalkExplorer)
        requires
            flags_valid(op_flags),
        ensures
            r.op_flags == op_flags,
    {
        RandomWalkExplorer { rng: seed_rng(seed), op_flags }
    }
}

impl Explorer for RandomWalkExplorer {
    open spec fn wf(&self, instance: &ATSP) -> bool {
        flags_valid(self.op_flags)
    }

    open spec fn step_post(
        pre: Self,
        post: Self,
        instance: ATSP,
        sol_pre: Solution,
        sol_post: Solution,
        ctx_pre: Context,
        ctx_post: Context,
    ) -> bool {
        &&& post.op_flags == pre.op_flags
        &&& ctx_post.evaluations == sat_inc(ctx_pre.evaluations)
        &&& ctx_post.steps == ctx_pre.steps
        &&& exists|op: Operation|
            (#[trigger] op.valid_for(instance.dimension as int)) && op.first_idx
                != op.second_idx && (op.op_type is NodeSwap ==> node_swap_enabled(pre.op_flags))
                && (op.op_type is EdgeSwap ==> edge_swap_enabled(pre.op_flags))
                && sol_post.order@ == op.apply_spec(sol_pre.order@)
    }

    open spec fn stop_spec(&self, ctx: Context) -> bool {
        false
    }

    fn explore(&mut self, instance: &ATSP, solution: &mut Solution, context: &mut Context) {
        let ghost s0 = solution.order@;
        let op = random_operation(&mut self.rng, instance.dimension as u16, self.op_flags);
        let cost_change = op.evaluate(solution, instance);
        proof {
            lemma_apply_preserves_permutation(op, solution.order@, instance.dimension as int);
            lemma_tour_cost_bound(instance.mat(), op.apply_spec(solution.order@));
        }
        context.current_cost = context.current_cost + cost_change;
        op.apply(solution);
        if context.evaluations < u32::MAX {
            context.evaluations = context.evaluations + 1;
        }
        proof {
            assert(op.valid_for(instance.dimension as int) && op.first_idx != op.second_idx
                && solution.order@ == op.apply_spec(s0));
        }
    }

    fn stop_condition(&self, ctx: &Context) -> (b: bool) {
        false
    }
}


/// Steepest descent (best-improvement): every step evaluates the whole
/// freshly enumerated neighborhood, keeps the moves tied for the most
/// negative delta, and applies one of them at random.  After a step the
/// terminal flag holds exactly when the tour the step saw was a local
/// optimum; a terminal step mutates nothing.
pub struct SteepestSearchExplorer {
    pub rng: StdRng,
    pub stop: bool,
    pub op_flags: u32,
}

impl SteepestSearchExplorer {
    pub fn new(seed: u64, op_flags: u32) -> (r: SteepestSearchExplorer)
        requires
            flags_valid(op_flags),
        ensures
            r.op_flags == op_flags,
            !r.stop,
    {
        SteepestSearchExplorer { rng: seed_rng(seed), stop: false, op_flags }
    }
}

impl Explorer for SteepestSearchExplorer {
    open spec fn wf(&self, instance: &ATSP) -> bool {
        flags_valid(self.op_flags)
    }

    open spec fn step_post(
        pre: Self,
        post: Self,
        instance: ATSP,
        sol_pre: Solution,
        sol_post: Solution,
        ctx_pre: Context,
        ctx_post: Context,
    ) -> bool {
        &&& post.op_flags == pre.op_flags
        &&& (post.stop <==> is_local_optimum(instance, sol_pre.order@, pre.op_flags))
        &&& ctx_post.steps == ctx_pre.steps
        &&& ctx_post.evaluations == sat_add(
            ctx_pre.evaluations,
            nbhd_len(instance.dimension as int, pre.op_flags),
        )
        &&& (post.stop ==> sol_post.order@ == sol_pre.order@ && ctx_post.current_cost
            == ctx_pre.current_cost)
        &&& (!post.stop ==> ({
            let n = instance.dimension as int;
            let d = ctx_post.current_cost - ctx_pre.current_cost;
            &&& d < 0
            &&& exists|idx: int|
                0 <= idx < nbhd_len(n, pre.op_flags) && op_delta(
                    instance,
                    sol_pre.order@,
                    #[trigger] nbhd_op(n, pre.op_flags, idx),
                ) == d && sol_post.order@ == nbhd_op(n, pre.op_flags, idx).apply_spec(
                    sol_pre.order@,
                )
            &&& forall|idx: int|
                0 <= idx < nbhd_len(n, pre.op_flags) ==> op_delta(
                    instance,
                    sol_pre.order@,
                    #[trigger] nbhd_op(n, pre.op_flags, idx),
                ) >= d
        }))
    }

    open spec fn stop_spec(&self, ctx: Context) -> bool {
        self.stop
    }

    #[verifier::loop_isolation(false)]
    fn explore(&mut self, instance: &ATSP, solution: &mut Solution, context: &mut Context) {
        let ghost n = instance.dimension as int;
        let ghost flags = self.op_flags;
        let ghost s0 = solution.order@;
        let nn = instance.dimension as u16;
        let mut best_ops: Vec<Operation> = Vec::new();
        let mut best_delta: i32 = i32::MAX;
        let mut it = NeighborhoodIterator::new(nn, self.op_flags);
        let mut finished = false;
        while !finished
            invariant
                it.wf(),
                it.num_nodes == nn,
                it.op_flags == flags,
                finished ==> it.pos@ == nbhd_len(n, flags),
                best_delta == i32::MAX ==> best_ops@.len() == 0 && forall|idx: int|
                    0 <= idx < it.pos@ ==> op_delta(*instance, s0, #[trigger] nbhd_op(
                        n,
                        flags,
                        idx,
                    )) >= 0,
                best_delta < i32::MAX ==> best_delta < 0 && best_ops@.len() >= 1,
                best_delta < i32::MAX ==> forall|idx: int|
                    0 <= idx < it.pos@ ==> op_delta(*instance, s0, #[trigger] nbhd_op(
                        n,
                        flags,
                        idx,
                    )) >= best_delta,
                forall|q: int|
                    0 <= q < best_ops@.len() ==> (#[trigger] best_ops@[q]).valid_for(n)
                        && op_delta(*instance, s0, best_ops@[q]) == best_delta && exists|idx: int|
                        0 <= idx < it.pos@ && best_ops@[q] == nbhd_op(n, flags, idx),
                context.current_cost == old(context).current_cost,
                context.best_cost == old(context).best_cost,
                context.initial_cost == old(context).initial_cost,
                context.iterations == old(context).iterations,
                context.iterations_without_improvement == old(
                    context,
                ).iterations_without_improvement,
                context.steps == old(context).steps,
                context.cost_history@ == old(context).cost_history@,
                context.evaluations_history@ == old(context).evaluations_history@,
                context.evaluations == sat_add(old(context).evaluations, it.pos@),
            decreases nbhd_len(n, flags) - it.pos@ + if finished {
                0int
            } else {
                1int
            },
        {
            let ghost pos0 = it.pos@;
            match it.next() {
                Some(v) => {
                    proof {
                        lemma_nbhd_op_valid(n, flags, pos0);
                        Operation::lemma_encoding_round_trip(nbhd_op(n, flags, pos0));
                    }
                    let op = Operation::from_int(v);
                    proof {
                        assert(op == nbhd_op(n, flags, pos0));
                    }
                    let op_d = op.evaluate(solution, instance);
                    if context.evaluations < u32::MAX {
                        context.evaluations = context.evaluations + 1;
                    }
                    proof {
                        crate::search::lemma_sat_add_step(old(context).evaluations, pos0);
                    }
                    if op_d >= 0 || op_d > best_delta {
                        // not an improvement over the best seen so far
                    } else {
                        if op_d < best_delta {
                            best_delta = op_d;
                            best_ops.clear();
                        }
                        best_ops.push(op);
                        proof {
                            assert(best_ops@[best_ops@.len() - 1] == nbhd_op(n, flags, pos0));
                        }
                    }
                },
                None => {
                    finished = true;
                },
            }
        }
        self.stop = best_delta >= 0;
        if self.stop {
            proof {
                assert(best_delta == i32::MAX);
                assert(is_local_optimum(*instance, s0, flags));
            }
            return ;
        }
        proof {
            let q0 = 0int;
            let widx = choose|idx: int|
                0 <= idx < it.pos@ && best_ops@[q0] == nbhd_op(n, flags, idx);
            assert(op_delta(*instance, s0, nbhd_op(n, flags, widx)) == best_delta);
            assert(!is_local_optimum(*instance, s0, flags));
        }
        let sampled_idx = gen_index(&mut self.rng, 0, best_ops.len());
        let chosen = best_ops[sampled_idx];
        proof {
            lemma_apply_preserves_permutation(chosen, solution.order@, n);
            lemma_tour_cost_bound(instance.mat(), chosen.apply_spec(solution.order@));
        }
        chosen.apply(solution);
        context.current_cost = context.current_cost + best_delta;
        proof {
            let widx = choose|idx: int|
                0 <= idx < it.pos@ && best_ops@[sampled_idx as int] == nbhd_op(n, flags, idx);
            assert(op_delta(*instance, s0, nbhd_op(n, flags, widx)) == best_delta
                && solution.order@ == nbhd_op(n, flags, widx).apply_spec(s0));
        }
    }

    fn stop_condition(&self, ctx: &Context) -> (b: bool) {
        self.stop
    }
}

/// Greedy descent (first-improvement): a static move list is built once,
/// reshuffled each step, and scanned until the first improving move, which
/// is applied.  A full scan without improvement sets the terminal flag: the
/// tour is then a local optimum of the whole enabled neighborhood.
pub struct GreedySearchExplorer {
    pub rng: StdRng,
    pub stop: bool,
    pub ops: Vec<u32>,
    pub op_flags: u32,
}

impl GreedySearchExplorer {
    pub fn new(seed: u64, num_nodes: u16, op_flags: u32) -> (r: GreedySearchExplorer)
        requires
            3 <= num_nodes <= MAX_NODES,
            flags_valid(op_flags),
        ensures
            r.op_flags == op_flags,
            !r.stop,
            r.ops@.to_multiset() == nbhd_encodings(num_nodes as int, op_flags).to_multiset(),
    {
        GreedySearchExplorer {
            rng: seed_rng(seed),
            stop: false,
            ops: collect_neighborhood(num_nodes, op_flags),
            op_flags,
        }
    }
}

impl Explorer for GreedySearchExplorer {
    open spec fn wf(&self, instance: &ATSP) -> bool {
        &&& flags_valid(self.op_flags)
        &&& self.ops@.to_multiset() == nbhd_encodings(
            instance.dimension as int,
            self.op_flags,
        ).to_multiset()
    }

    open spec fn step_post(
        pre: Self,
        post: Self,
        instance: ATSP,
        sol_pre: Solution,
        sol_post: Solution,
        ctx_pre: Context,
        ctx_post: Context,
    ) -> bool {
        &&& post.op_flags == pre.op_flags
        &&& (pre.stop ==> post.stop)
        &&& (is_local_optimum(instance, sol_pre.order@, pre.op_flags) ==> post.stop)
        &&& (post.stop && !pre.stop ==> sol_post.order@ == sol_pre.order@
            && ctx_post.current_cost == ctx_pre.current_cost && ctx_post.steps == ctx_pre.steps
            && is_local_optimum(instance, sol_pre.order@, pre.op_flags)
            && ctx_post.evaluations == sat_add(
            ctx_pre.evaluations,
            nbhd_len(instance.dimension as int, pre.op_flags),
        ))
        &&& (!post.stop ==> ({
            let d = ctx_post.current_cost - ctx_pre.current_cost;
            &&& d < 0
            &&& ctx_post.steps == sat_inc(ctx_pre.steps)
            &&& exists|op: Operation|
                (#[trigger] op.valid_for(instance.dimension as int)) && (op.op_type
                    is NodeSwap ==> node_swap_enabled(pre.op_flags)) && (op.op_type
                    is EdgeSwap ==> edge_swap_enabled(pre.op_flags)) && op_delta(
                    instance,
                    sol_pre.order@,
                    op,
                ) == d && sol_post.order@ == op.apply_spec(sol_pre.order@)
            &&& exists|k: int|
                1 <= k <= nbhd_len(instance.dimension as int, pre.op_flags) && ctx_post.evaluations
                    == #[trigger] sat_add(ctx_pre.evaluations, k)
        }))
    }

    open spec fn stop_spec(&self, ctx: Context) -> bool {
        self.stop
    }

    #[verifier::loop_isolation(false)]
    #[verifier::rlimit(90)]
    fn explore(&mut self, instance: &ATSP, solution: &mut Solution, context: &mut Context) {
        broadcast use vstd::seq_lib::group_to_multiset_ensures;

        let ghost n = instance.dimension as int;
        let ghost flags = self.op_flags;
        let ghost s0 = solution.order@;
        let ghost pre_stop = self.stop;
        shuffle(&mut self.ops, &mut self.rng);
        proof {
            lemma_node_rows_pos(n, 0);
            lemma_edge_rows_pos(n, 0);
            assert(self.ops@.len() == self.ops@.to_multiset().len());
            assert(nbhd_encodings(n, flags).len() == nbhd_encodings(n, flags).to_multiset().len());
            assert(self.ops@.len() == nbhd_len(n, flags));
        }
        let len = self.ops.len();
        for k in 0..len
            invariant
                len == self.ops@.len(),
                len == nbhd_len(n, flags),
                context.evaluations == sat_add(old(context).evaluations, k as int),
                self.op_flags == flags,
                self.stop == pre_stop,
                self.ops@.to_multiset() == nbhd_encodings(n, flags).to_multiset(),
                solution.order@ == s0,
                solution.wf(),
                solution.dimension == instance.dimension,
                forall|p: int|
                    0 <= p < k ==> op_delta(*instance, s0, decode_op(#[trigger] self.ops@[p] as int))
                        >= 0,
                context.current_cost == old(context).current_cost,
                context.best_cost == old(context).best_cost,
                context.initial_cost == old(context).initial_cost,
                context.iterations == old(context).iterations,
                context.iterations_without_improvement == old(
                    context,
                ).iterations_without_improvement,
                context.steps == old(context).steps,
                context.cost_history@ == old(context).cost_history@,
                context.evaluations_history@ == old(context).evaluations_history@,
        {
            proof {
                assert(self.ops@.to_multiset().count(self.ops@[k as int]) > 0) by {
                    assert(self.ops@.contains(self.ops@[k as int]));
                }
                assert(nbhd_encodings(n, flags).to_multiset().count(self.ops@[k as int]) > 0);
                assert(nbhd_encodings(n, flags).contains(self.ops@[k as int]));
            }
            let ghost widx = choose|idx: int|
                0 <= idx < nbhd_encodings(n, flags).len() && nbhd_encodings(n, flags)[idx]
                    == self.ops@[k as int];
            proof {
                lemma_node_rows_pos(n, 0);
                lemma_edge_rows_pos(n, 0);
                assert(0 <= widx < nbhd_len(n, flags));
                lemma_nbhd_op_valid(n, flags, widx);
                Operation::lemma_encoding_round_trip(nbhd_op(n, flags, widx));
                assert(self.ops@[k as int] as int == nbhd_op(n, flags, widx).encoding());
            }
            let op = Operation::from_int(self.ops[k]);
            proof {
                assert(op == nbhd_op(n, flags, widx));
            }
            let op_d = op.evaluate(solution, instance);
            if context.evaluations < u32::MAX {
                context.evaluations = context.evaluations + 1;
            }
            proof {
                crate::search::lemma_sat_add_step(old(context).evaluations, k as int);
            }
            if op_d < 0 {
                proof {
                    assert(!is_local_optimum(*instance, s0, flags)) by {
                        assert(op_delta(*instance, s0, nbhd_op(n, flags, widx)) < 0);
                    }
                    lemma_apply_preserves_permutation(op, solution.order@, n);
                    lemma_tour_cost_bound(instance.mat(), op.apply_spec(solution.order@));
                }
                op.apply(solution);
                context.current_cost = context.current_cost + op_d;
                if context.steps < u32::MAX {
                    context.steps = context.steps + 1;
                }
                proof {
                    assert(op.valid_for(n) && op_delta(*instance, s0, op) == op_d as int
                        && solution.order@ == op.apply_spec(s0));
                    assert(1 <= k + 1 <= nbhd_len(n, flags) && context.evaluations == sat_add(
                        old(context).evaluations,
                        k + 1,
                    ));
                }
                return ;
            }
        }
        self.stop = true;
        proof {
            assert forall|idx: int| 0 <= idx < nbhd_len(n, flags) implies op_delta(
                *instance,
                s0,
                #[trigger] nbhd_op(n, flags, idx),
            ) >= 0 by {
                lemma_node_rows_pos(n, 0);
                lemma_edge_rows_pos(n, 0);
                let enc = nbhd_encodings(n, flags)[idx];
                assert(nbhd_encodings(n, flags).contains(enc));
                assert(nbhd_encodings(n, flags).to_multiset().count(enc) > 0);
                assert(self.ops@.to_multiset().count(enc) > 0);
                assert(self.ops@.contains(enc));
                let p = choose|p: int| 0 <= p < self.ops@.len() && self.ops@[p] == enc;
                lemma_nbhd_op_valid(n, flags, idx);
                Operation::lemma_encoding_round_trip(nbhd_op(n, flags, idx));
                assert(decode_op(self.ops@[p] as int) == nbhd_op(n, flags, idx));
                assert(op_delta(*instance, s0, decode_op(self.ops@[p] as int)) >= 0);
            }
            assert(is_local_optimum(*instance, s0, flags));
        }
    }

    fn stop_condition(&self, ctx: &Context) -> (b: bool) {
        self.stop
    }
}


/// A cached candidate or tabu entry decodes to a move whose indices address
/// a tour over `n` nodes.
pub open spec fn enc_wf(enc: u32, n: int) -> bool {
    &&& enc < 0x8000_0000
    &&& decode_op(enc as int).valid_for(n)
}

/// Membership scan over the tabu list.
fn tabu_contains(list: &VecDeque<u32>, x: u32) -> (b: bool)
    ensures
        b == list@.contains(x),
{
    let len = list.len();
    let mut i: usize = 0;
    while i < len
        invariant
            i <= len,
            len == list@.len(),
            forall|k: int| 0 <= k < i ==> list@[k] != x,
        decreases len - i,
    {
        if list[i] == x {
            assert(list@[i as int] == x);
            return true;
        }
        i = i + 1;
    }
    assert(!list@.contains(x));
    false
}

/// The cache entries are ordered most-improving (smallest delta) first.
pub open spec fn cands_sorted(c: Seq<(i32, u32)>) -> bool {
    forall|q1: int, q2: int| 0 <= q1 < q2 < c.len() ==> (#[trigger] c[q1]).0 <= (#[trigger] c[q2]).0
}

/// One cache entry is a real neighborhood move carrying its cost delta
/// against the tour the cache was built on, and it survived the tabu filter:
/// it is not tabu, or applying it would beat the best-known cost (the
/// aspiration criterion).
pub open spec fn cand_entry_ok(
    entry: (i32, u32),
    instance: ATSP,
    s: Seq<u32>,
    tabu: Seq<u32>,
    flags: u32,
    current: i32,
    best: i32,
) -> bool {
    &&& enc_wf(entry.1, instance.dimension as int)
    &&& nbhd_encodings(instance.dimension as int, flags).contains(entry.1)
    &&& entry.0 as int == op_delta(instance, s, decode_op(entry.1 as int))
    &&& (!tabu.contains(entry.1) || entry.0 + current < best)
}

/// No admissible move was lost while building the cache: every neighborhood
/// move that is non-tabu or passes aspiration is cached, or the cache is
/// full and the move improves no more than the worst kept entry.
pub open spec fn cache_complete(
    c: Seq<(i32, u32)>,
    instance: ATSP,
    s: Seq<u32>,
    tabu: Seq<u32>,
    flags: u32,
    current: i32,
    best: i32,
    cap: int,
) -> bool {
    forall|idx: int|
        0 <= idx < nbhd_len(instance.dimension as int, flags) ==> {
            let op = #[trigger] nbhd_op(instance.dimension as int, flags, idx);
            let e = op.encoding() as u32;
            let d = op_delta(instance, s, op);
            (!tabu.contains(e) || d + current < best) ==> (exists|q: int|
                0 <= q < c.len() && (#[trigger] c[q]).1 == e) || (c.len() == cap && (c.len() == 0
                || d >= c.last().0))
        }
}

/// A freshly rebuilt candidate cache: sorted best-first, bounded by the
/// configured size, every entry admissible, and no admissible move lost.
pub open spec fn good_cache(
    c: Seq<(i32, u32)>,
    instance: ATSP,
    s: Seq<u32>,
    tabu: Seq<u32>,
    flags: u32,
    current: i32,
    best: i32,
    cap: int,
) -> bool {
    &&& cands_sorted(c)
    &&& c.len() <= cap
    &&& forall|q: int|
        0 <= q < c.len() ==> cand_entry_ok(#[trigger] c[q], instance, s, tabu, flags, current, best)
    &&& cache_complete(c, instance, s, tabu, flags, current, best, cap)
}

/// Inserts one evaluated candidate into a sorted, bounded cache: the entry
/// goes to its sorted place, and past the capacity the worst (last) entry is
/// evicted.  Every surviving entry is an old entry or the new one; an entry
/// only disappears when the cache is full and it improves no more than the
/// worst kept entry, whose delta never rises.
#[verifier::rlimit(100)]
fn insert_candidate(c: &mut Vec<(i32, u32)>, delta: i32, enc: u32, cap: usize)
    requires
        cands_sorted(old(c)@),
        old(c)@.len() <= cap,
    ensures
        cands_sorted(final(c)@),
        final(c)@.len() <= cap,
        old(c)@.len() < cap ==> final(c)@.len() == old(c)@.len() + 1,
        old(c)@.len() == cap ==> final(c)@.len() == cap,
        forall|q: int|
            0 <= q < final(c)@.len() ==> (#[trigger] final(c)@[q]) == (delta, enc)
                || old(c)@.contains(final(c)@[q]),
        (exists|q: int| 0 <= q < final(c)@.len() && (#[trigger] final(c)@[q]) == (delta, enc)) || (
        final(c)@.len() == cap && (cap == 0 || delta >= final(c)@.last().0)),
        forall|q0: int|
            0 <= q0 < old(c)@.len() ==> (exists|q: int|
                0 <= q < final(c)@.len() && (#[trigger] final(c)@[q]) == (#[trigger] old(
                    c,
                )@[q0])) || (final(c)@.len() == cap && cap > 0 && old(c)@[q0].0
                >= final(c)@.last().0),
        old(c)@.len() == cap && cap > 0 ==> final(c)@.last().0 <= old(c)@.last().0,
{
    let ghost c0 = c@;
    let ghost x = (delta, enc);
    let mut at: usize = 0;
    let cand_len = c.len();
    while at < cand_len && c[at].0 <= delta
        invariant
            at <= cand_len,
            cand_len == c@.len(),
            c@ == c0,
            forall|p: int| 0 <= p < at ==> (#[trigger] c0[p]).0 <= delta,
        decreases cand_len - at,
    {
        at = at + 1;
    }
    c.insert(at, (delta, enc));
    let ghost c1 = c@;
    let ghost a = at as int;
    proof {
        c0.insert_ensures(a, x);
        assert(c1.len() == c0.len() + 1);
        assert(forall|q: int| 0 <= q < a ==> #[trigger] c1[q] == c0[q]);
        assert(c1[a] == x);
        assert(forall|q: int| a <= q < c0.len() ==> #[trigger] c1[q + 1] == c0[q]);
        assert(forall|q: int| a < q < c1.len() ==> #[trigger] c1[q] == c0[q - 1]);
        assert forall|q1: int, q2: int|
            0 <= q1 < q2 < c1.len() implies (#[trigger] c1[q1]).0 <= (#[trigger] c1[q2]).0 by {
            if q1 < a && q2 < a {
            } else if q1 < a && q2 == a {
            } else if q1 == a && q2 > a {
                assert(c1[q2] == c0[q2 - 1]);
                assert(c0[q2 - 1].0 >= c0[a].0);
            } else if q1 < a && q2 > a {
                assert(c1[q2] == c0[q2 - 1]);
            } else {
                assert(c1[q1] == c0[q1 - 1] && c1[q2] == c0[q2 - 1]);
            }
        }
        assert(cands_sorted(c1));
    }
    if c.len() > cap {
        c.pop();
        let ghost cf = c@;
        proof {
            assert(c0.len() == cap);
            assert(cf.len() == c1.len() - 1 && cf.len() == cap);
            assert(forall|q: int| 0 <= q < cf.len() ==> #[trigger] cf[q] == c1[q]);
            assert(cands_sorted(cf));
            assert forall|q: int|
                0 <= q < cf.len() implies (#[trigger] cf[q]) == x || c0.contains(cf[q]) by {
                if q < a {
                    assert(cf[q] == c0[q]);
                    assert(c0.contains(cf[q]));
                } else if q > a {
                    assert(cf[q] == c0[q - 1]);
                    assert(c0.contains(cf[q]));
                }
            }
            if cap > 0 {
                assert(cf.last() == c1[cap - 1]);
                // the worst kept delta never rises
                if a == cap {
                    assert(c1[cap - 1] == c0[cap - 1]);
                    assert(cf.last().0 <= c0.last().0);
                } else if a == cap - 1 {
                    assert(c1[cap - 1] == x);
                    assert(c0[a].0 > delta);
                    assert(cf.last().0 <= c0.last().0);
                } else {
                    assert(c1[cap - 1] == c0[cap - 2]);
                    assert(c0[cap - 2].0 <= c0[cap - 1].0);
                    assert(cf.last().0 <= c0.last().0);
                }
                // the new entry is kept, or it was the evicted worst
                if a < cap {
                    assert(cf[a] == x);
                } else {
                    assert(c0[cap - 1].0 <= delta);
                    assert(delta >= cf.last().0);
                }
            }
            assert forall|q0: int|
                0 <= q0 < c0.len() implies (exists|q: int|
                    0 <= q < cf.len() && (#[trigger] cf[q]) == (#[trigger] c0[q0])) || (cf.len()
                    == cap && cap > 0 && c0[q0].0 >= cf.last().0) by {
                if q0 < a {
                    assert(cf[q0] == c0[q0]);
                } else if q0 + 1 < cf.len() {
                    assert(cf[q0 + 1] == c1[q0 + 1] && c1[q0 + 1] == c0[q0]);
                } else {
                    // its entry was the evicted worst
                    assert(q0 + 1 == c1.len() - 1);
                    assert(c1[q0 + 1] == c0[q0]);
                    assert(cf.last() == c1[q0]);
                    assert(c1[q0].0 <= c1[q0 + 1].0);
                }
            }
        }
    } else {
        proof {
            let cf = c@;
            assert forall|q: int|
                0 <= q < cf.len() implies (#[trigger] cf[q]) == x || c0.contains(cf[q]) by {
                if q < a {
                    assert(cf[q] == c0[q]);
                    assert(c0.contains(cf[q]));
                } else if q > a {
                    assert(cf[q] == c0[q - 1]);
                    assert(c0.contains(cf[q]));
                }
            }
            assert(cf[a] == x);
            assert forall|q0: int|
                0 <= q0 < c0.len() implies (exists|q: int|
                    0 <= q < cf.len() && (#[trigger] cf[q]) == (#[trigger] c0[q0])) || (cf.len()
                    == cap && cap > 0 && c0[q0].0 >= cf.last().0) by {
                if q0 < a {
                    assert(cf[q0] == c0[q0]);
                } else {
                    assert(cf[q0 + 1] == c0[q0]);
                }
            }
        }
    }
}

/// Tabu search: a cache of the most improving non-tabu candidate moves is
/// built from a shuffled sweep of the neighborhood (a tabu move survives
/// only if it would beat the best-known cost: the aspiration criterion).
/// Each step pops the best cached candidate and re-evaluates it against the
/// current tour; if it still improves it is applied and its encoding enters
/// the bounded tabu list, oldest entry evicted first.  Otherwise the step
/// applies nothing and rebuilds the cache.  The search stops when the best
/// known cost has not improved for `patience` iterations.
pub struct TabuSearchExplorer {
    pub rng: StdRng,
    pub op_flags: u32,
    pub tabu_list: VecDeque<u32>,
    pub patience: u32,
    pub tabu_tenure: u32,
    pub candidate_list_size: usize,
    pub candidates: Vec<(i32, u32)>,
}

impl TabuSearchExplorer {
    pub fn new(
        seed: u64,
        op_flags: u32,
        patience: u32,
        candidate_list_size: usize,
        tabu_tenure: u32,
    ) -> (r: TabuSearchExplorer)
        requires
            flags_valid(op_flags),
            tabu_tenure >= 1,
        ensures
            r.op_flags == op_flags,
            r.patience == patience,
            r.tabu_tenure == tabu_tenure,
            r.candidate_list_size == candidate_list_size,
            r.tabu_list@.len() == 0,
            r.candidates@.len() == 0,
    {
        TabuSearchExplorer {
            rng: seed_rng(seed),
            op_flags,
            tabu_list: VecDeque::new(),
            patience,
            tabu_tenure,
            candidate_list_size,
            candidates: Vec::new(),
        }
    }

    /// Remembers an applied move: pushed to the front, and past the tenure
    /// capacity the oldest (back) entry is evicted, so the list is a bounded
    /// first-in-first-out queue of the most recent moves.
    fn update_tabu_list(&mut self, enc: u32)
        requires
            old(self).tabu_tenure >= 1,
            old(self).tabu_list@.len() <= old(self).tabu_tenure,
        ensures
            final(self).op_flags == old(self).op_flags,
            final(self).patience == old(self).patience,
            final(self).tabu_tenure == old(self).tabu_tenure,
            final(self).candidate_list_size == old(self).candidate_list_size,
            final(self).candidates == old(self).candidates,
            final(self).rng == old(self).rng,
            final(self).tabu_list@ == if old(self).tabu_list@.len() < old(self).tabu_tenure {
                seq![enc] + old(self).tabu_list@
            } else {
                (seq![enc] + old(self).tabu_list@).drop_last()
            },
            final(self).tabu_list@.len() <= final(self).tabu_tenure,
            final(self).tabu_list@[0] == enc,
    {
        self.tabu_list.push_front(enc);
        if self.tabu_list.len() > self.tabu_tenure as usize {
            self.tabu_list.pop_back();
            proof {
                assert(self.tabu_list@ =~= (seq![enc] + old(self).tabu_list@).drop_last());
            }
        }
    }

    /// Rebuilds the candidate cache from a shuffled sweep of the whole
    /// neighborhood, keeping at most `candidate_list_size` survivors ordered
    /// most-improving first; the survivors and their order are exactly as
    /// `good_cache` describes.
    #[verifier::loop_isolation(false)]
    #[verifier::rlimit(100)]
    fn build_top_moves(&mut self, instance: &ATSP, solution: &Solution, context: &mut Context)
        requires
            instance.wf(),
            instance.dimension >= 3,
            flags_valid(old(self).op_flags),
            solution.wf(),
            solution.dimension == instance.dimension,
            is_permutation(solution.order@, instance.dimension as int),
        ensures
            final(self).op_flags == old(self).op_flags,
            final(self).patience == old(self).patience,
            final(self).tabu_tenure == old(self).tabu_tenure,
            final(self).candidate_list_size == old(self).candidate_list_size,
            final(self).tabu_list == old(self).tabu_list,
            good_cache(
                final(self).candidates@,
                *instance,
                solution.order@,
                old(self).tabu_list@,
                old(self).op_flags,
                old(context).current_cost,
                old(context).best_cost,
                old(self).candidate_list_size as int,
            ),
            final(context).current_cost == old(context).current_cost,
            final(context).best_cost == old(context).best_cost,
            final(context).initial_cost == old(context).initial_cost,
            final(context).iterations == old(context).iterations,
            final(context).iterations_without_improvement == old(
                context,
            ).iterations_without_improvement,
            final(context).steps == old(context).steps,
            final(context).cost_history@ == old(context).cost_history@,
            final(context).evaluations_history@ == old(context).evaluations_history@,
            final(context).evaluations == sat_add(
                old(context).evaluations,
                nbhd_len(instance.dimension as int, old(self).op_flags),
            ),
    {
        broadcast use vstd::seq_lib::group_to_multiset_ensures;

        let ghost n = instance.dimension as int;
        let ghost flags = self.op_flags;
        let ghost s = solution.order@;
        let ghost tabu = self.tabu_list@;
        let ghost cur = context.current_cost;
        let ghost best = context.best_cost;
        let ghost cap = self.candidate_list_size as int;
        let mut pool = collect_neighborhood(instance.dimension as u16, self.op_flags);
        let ghost pool0 = pool@;
        shuffle(&mut pool, &mut self.rng);
        proof {
            lemma_node_rows_pos(n, 0);
            lemma_edge_rows_pos(n, 0);
            assert(pool0 == nbhd_encodings(n, flags));
            assert(pool@.len() == pool@.to_multiset().len());
            assert(pool0.len() == pool0.to_multiset().len());
            assert(pool@.len() == nbhd_len(n, flags));
        }
        self.candidates.clear();
        let len = pool.len();
        for k in 0..len
            invariant
                len == pool@.len(),
                len == nbhd_len(n, flags),
                self.op_flags == flags,
                self.patience == old(self).patience,
                self.tabu_tenure == old(self).tabu_tenure,
                self.candidate_list_size == old(self).candidate_list_size,
                self.tabu_list == old(self).tabu_list,
                pool@.to_multiset() == nbhd_encodings(n, flags).to_multiset(),
                cands_sorted(self.candidates@),
                self.candidates@.len() <= cap,
                forall|q: int|
                    0 <= q < self.candidates@.len() ==> cand_entry_ok(
                        #[trigger] self.candidates@[q],
                        *instance,
                        s,
                        tabu,
                        flags,
                        cur,
                        best,
                    ),
                forall|p: int|
                    0 <= p < k ==> ({
                        let e = #[trigger] pool@[p];
                        let d = op_delta(*instance, s, decode_op(e as int));
                        (!tabu.contains(e) || d + cur < best) ==> (exists|q: int|
                            0 <= q < self.candidates@.len() && (#[trigger] self.candidates@[q]).1
                                == e) || (self.candidates@.len() == cap && (self.candidates@.len()
                            == 0 || d >= self.candidates@.last().0))
                    }),
                context.current_cost == old(context).current_cost,
                context.best_cost == old(context).best_cost,
                context.initial_cost == old(context).initial_cost,
                context.iterations == old(context).iterations,
                context.iterations_without_improvement == old(
                    context,
                ).iterations_without_improvement,
                context.steps == old(context).steps,
                context.cost_history@ == old(context).cost_history@,
                context.evaluations_history@ == old(context).evaluations_history@,
                context.evaluations == sat_add(old(context).evaluations, k as int),
        {
            proof {
                assert(pool@.to_multiset().count(pool@[k as int]) > 0) by {
                    assert(pool@.contains(pool@[k as int]));
                }
                assert(nbhd_encodings(n, flags).to_multiset().count(pool@[k as int]) > 0);
                assert(nbhd_encodings(n, flags).contains(pool@[k as int]));
            }
            let ghost widx = choose|idx: int|
                0 <= idx < nbhd_encodings(n, flags).len() && nbhd_encodings(n, flags)[idx]
                    == pool@[k as int];
            proof {
                assert(0 <= widx < nbhd_len(n, flags));
                lemma_nbhd_op_valid(n, flags, widx);
                Operation::lemma_encoding_round_trip(nbhd_op(n, flags, widx));
            }
            let enc = pool[k];
            let op = Operation::from_int(enc);
            proof {
                assert(op == nbhd_op(n, flags, widx));
                assert(enc_wf(enc, n));
            }
            let delta = op.evaluate(solution, instance);
            if context.evaluations < u32::MAX {
                context.evaluations = context.evaluations + 1;
            }
            proof {
                crate::search::lemma_sat_add_step(old(context).evaluations, k as int);
            }
            let improves_best = (delta as i64) + (context.current_cost as i64) < (
            context.best_cost as i64);
            let is_tabu = tabu_contains(&self.tabu_list, enc);
            let ghost c0 = self.candidates@;
            if !is_tabu || improves_best {
                insert_candidate(&mut self.candidates, delta, enc, self.candidate_list_size);
                proof {
                    let cf = self.candidates@;
                    assert(cand_entry_ok((delta, enc), *instance, s, tabu, flags, cur, best));
                    assert forall|q: int|
                        0 <= q < cf.len() implies cand_entry_ok(
                        #[trigger] cf[q],
                        *instance,
                        s,
                        tabu,
                        flags,
                        cur,
                        best,
                    ) by {
                        if cf[q] != (delta, enc) {
                            assert(c0.contains(cf[q]));
                            let w = choose|w: int| 0 <= w < c0.len() && c0[w] == cf[q];
                            assert(cand_entry_ok(c0[w], *instance, s, tabu, flags, cur, best));
                        }
                    }
                    assert forall|p: int|
                        0 <= p < k + 1 implies ({
                            let e2 = #[trigger] pool@[p];
                            let d2 = op_delta(*instance, s, decode_op(e2 as int));
                            (!tabu.contains(e2) || d2 + cur < best) ==> (exists|q: int|
                                0 <= q < cf.len() && (#[trigger] cf[q]).1 == e2) || (cf.len() == cap
                                && (cf.len() == 0 || d2 >= cf.last().0))
                        }) by {
                        let e2 = pool@[p];
                        let d2 = op_delta(*instance, s, decode_op(e2 as int));
                        if !tabu.contains(e2) || d2 + cur < best {
                            if p == k {
                                if exists|q: int|
                                    0 <= q < cf.len() && (#[trigger] cf[q]) == (delta, enc) {
                                    let q = choose|q: int|
                                        0 <= q < cf.len() && (#[trigger] cf[q]) == (delta, enc);
                                    assert(cf[q].1 == e2);
                                } else {
                                    assert(cf.len() == cap && (cap == 0 || d2 >= cf.last().0));
                                }
                            } else {
                                if exists|q: int| 0 <= q < c0.len() && (#[trigger] c0[q]).1 == e2 {
                                    let q0 = choose|q: int|
                                        0 <= q < c0.len() && (#[trigger] c0[q]).1 == e2;
                                    assert(c0[q0].0 as int == d2);
                                    if exists|q: int|
                                        0 <= q < cf.len() && (#[trigger] cf[q]) == c0[q0] {
                                        let q = choose|q: int|
                                            0 <= q < cf.len() && (#[trigger] cf[q]) == c0[q0];
                                        assert(cf[q].1 == e2);
                                    } else {
                                        assert(cf.len() == cap && cap > 0 && c0[q0].0
                                            >= cf.last().0);
                                    }
                                } else {
                                    assert(c0.len() == cap && (c0.len() == 0 || d2
                                        >= c0.last().0));
                                    assert(cap > 0 ==> cf.last().0 <= c0.last().0);
                                    assert(cf.len() == cap);
                                }
                            }
                        }
                    }
                }
            } else {
                proof {
                    assert(is_tabu == tabu.contains(pool@[k as int]));
                }
            }
        }
        proof {
            assert forall|idx: int|
                0 <= idx < nbhd_len(n, flags) implies ({
                    let op = #[trigger] nbhd_op(n, flags, idx);
                    let e = op.encoding() as u32;
                    let d = op_delta(*instance, s, op);
                    (!tabu.contains(e) || d + cur < best) ==> (exists|q: int|
                        0 <= q < self.candidates@.len() && (#[trigger] self.candidates@[q]).1 == e)
                        || (self.candidates@.len() == cap && (self.candidates@.len() == 0 || d
                        >= self.candidates@.last().0))
                }) by {
                lemma_nbhd_op_valid(n, flags, idx);
                Operation::lemma_encoding_round_trip(nbhd_op(n, flags, idx));
                let e = nbhd_op(n, flags, idx).encoding() as u32;
                assert(nbhd_encodings(n, flags)[idx] == e);
                assert(nbhd_encodings(n, flags).contains(e));
                assert(nbhd_encodings(n, flags).to_multiset().count(e) > 0);
                assert(pool@.to_multiset().count(e) > 0);
                assert(pool@.contains(e));
                let p = choose|p: int| 0 <= p < pool@.len() && pool@[p] == e;
                assert(decode_op(pool@[p] as int) == nbhd_op(n, flags, idx));
            }
        }
    }
}

impl Explorer for TabuSearchExplorer {
    open spec fn wf(&self, instance: &ATSP) -> bool {
        &&& flags_valid(self.op_flags)
        &&& self.tabu_tenure >= 1
        &&& self.tabu_list@.len() <= self.tabu_tenure
        &&& forall|q: int|
            0 <= q < self.candidates@.len() ==> enc_wf(
                (#[trigger] self.candidates@[q]).1,
                instance.dimension as int,
            )
    }

    open spec fn step_post(
        pre: Self,
        post: Self,
        instance: ATSP,
        sol_pre: Solution,
        sol_post: Solution,
        ctx_pre: Context,
        ctx_post: Context,
    ) -> bool {
        let n = instance.dimension as int;
        &&& post.op_flags == pre.op_flags
        &&& post.patience == pre.patience
        &&& post.tabu_tenure == pre.tabu_tenure
        &&& post.candidate_list_size == pre.candidate_list_size
        &&& ctx_post.current_cost <= ctx_pre.current_cost
        &&& (ctx_post.current_cost == ctx_pre.current_cost ==> sol_post.order@ == sol_pre.order@)
        &&& (pre.candidates@.len() == 0 ==> sol_post.order@ == sol_pre.order@
            && ctx_post.current_cost == ctx_pre.current_cost && post.tabu_list == pre.tabu_list
            && ctx_post.evaluations == sat_add(ctx_pre.evaluations, nbhd_len(n, pre.op_flags))
            && good_cache(
            post.candidates@,
            instance,
            sol_pre.order@,
            pre.tabu_list@,
            pre.op_flags,
            ctx_pre.current_cost,
            ctx_pre.best_cost,
            pre.candidate_list_size as int,
        ))
        &&& (pre.candidates@.len() > 0 ==> ({
            let enc = pre.candidates@[0].1;
            let d = op_delta(instance, sol_pre.order@, decode_op(enc as int));
            &&& (d < 0 ==> sol_post.order@ == decode_op(enc as int).apply_spec(sol_pre.order@)
                && ctx_post.current_cost as int == ctx_pre.current_cost + d && post.candidates@
                == pre.candidates@.drop_first() && post.tabu_list@ == (
            if pre.tabu_list@.len() < pre.tabu_tenure {
                seq![enc] + pre.tabu_list@
            } else {
                (seq![enc] + pre.tabu_list@).drop_last()
            }) && ctx_post.evaluations == sat_inc(ctx_pre.evaluations))
            &&& (d >= 0 ==> sol_post.order@ == sol_pre.order@ && ctx_post.current_cost
                == ctx_pre.current_cost && post.tabu_list == pre.tabu_list
                && ctx_post.evaluations == sat_add(
                ctx_pre.evaluations,
                1 + nbhd_len(n, pre.op_flags),
            ) && good_cache(
                post.candidates@,
                instance,
                sol_pre.order@,
                pre.tabu_list@,
                pre.op_flags,
                ctx_pre.current_cost,
                ctx_pre.best_cost,
                pre.candidate_list_size as int,
            ))
        }))
    }

    open spec fn stop_spec(&self, ctx: Context) -> bool {
        ctx.iterations_without_improvement >= self.patience
    }

    fn explore(&mut self, instance: &ATSP, solution: &mut Solution, context: &mut Context) {
        let ghost n = instance.dimension as int;
        proof {
            crate::operation::lemma_node_rows_pos(n, 0);
            crate::operation::lemma_edge_rows_pos(n, 0);
        }
        if self.candidates.len() == 0 {
            self.build_top_moves(instance, solution, context);
            return ;
        }
        let (cached_delta, enc) = self.candidates.remove(0);
        proof {
            assert(enc_wf(enc, n));
            assert(self.candidates@ =~= old(self).candidates@.drop_first());
        }
        let op = Operation::from_int(enc);
        let delta = op.evaluate(solution, instance);
        if context.evaluations < u32::MAX {
            context.evaluations = context.evaluations + 1;
        }
        proof {
            crate::search::lemma_sat_add_step(old(context).evaluations, 0);
        }
        if delta < 0 {
            proof {
                lemma_apply_preserves_permutation(op, solution.order@, n);
                lemma_tour_cost_bound(instance.mat(), op.apply_spec(solution.order@));
            }
            context.current_cost = context.current_cost + delta;
            op.apply(solution);
            self.update_tabu_list(enc);
        } else {
            self.build_top_moves(instance, solution, context);
            proof {
                crate::search::lemma_sat_add_assoc(
                    old(context).evaluations,
                    1,
                    nbhd_len(n, old(self).op_flags),
                );
            }
        }
    }

    fn stop_condition(&self, ctx: &Context) -> (b: bool) {
        ctx.iterations_without_improvement >= self.patience
    }
}


} // verus!
