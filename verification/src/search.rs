use vstd::prelude::*;
use crate::atsp::{tour_cost, ATSP};
use crate::solution::{is_permutation, Solution};

verus! {

/// Saturating increment for the run counters: the counters are reporting
/// data, so they stop counting rather than overflow.
pub open spec fn sat_inc(x: u32) -> u32 {
    if x < 0xffff_ffff {
        (x + 1) as u32
    } else {
        x
    }
}

/// `k` saturating increments in a row.
pub open spec fn sat_add(x: u32, k: int) -> u32 {
    if x + k <= 0xffff_ffff {
        (x + k) as u32
    } else {
        0xffff_ffffu32
    }
}

/// One more saturating increment extends a saturating sum by one.
pub proof fn lemma_sat_add_step(x: u32, k: int)
    requires
        k >= 0,
    ensures
        sat_inc(sat_add(x, k)) == sat_add(x, k + 1),
{
}

/// Saturating sums compose.
pub proof fn lemma_sat_add_assoc(x: u32, a: int, b: int)
    requires
        a >= 0,
        b >= 0,
    ensures
        sat_add(sat_add(x, a), b) == sat_add(x, a + b),
{
}

/// Per-run record of the search: counters, the cost trajectory, and a
/// sampled improvement history.
#[derive(Debug, Clone)]
pub struct Context {
    pub iterations: u32,
    pub evaluations: u32,
    pub steps: u32,
    pub initial_cost: i32,
    pub current_cost: i32,
    pub best_cost: i32,
    pub iterations_without_improvement: u32,
    pub evaluations_history: Vec<u32>,
    pub cost_history: Vec<i32>,
}

impl Context {
    /// A fresh record, seeded with the initial tour's cost.
    pub fn new(initial_cost: i32) -> (ctx: Context)
        ensures
            ctx.iterations == 0,
            ctx.evaluations == 0,
            ctx.steps == 0,
            ctx.initial_cost == initial_cost,
            ctx.current_cost == initial_cost,
            ctx.best_cost == initial_cost,
            ctx.iterations_without_improvement == 0,
            ctx.evaluations_history@ == seq![0u32],
            ctx.cost_history@ == seq![initial_cost],
    {
        Context {
            iterations: 0,
            evaluations: 0,
            steps: 0,
            initial_cost,
            current_cost: initial_cost,
            best_cost: initial_cost,
            iterations_without_improvement: 0,
            evaluations_history: vec![0],
            cost_history: vec![initial_cost],
        }
    }

    /// Records an improvement: the current cost becomes the best-known cost,
    /// the no-improvement counter resets, and a history sample is appended.
    pub fn on_change_best(&mut self)
        ensures
            final(self).steps == sat_inc(old(self).steps),
            final(self).iterations_without_improvement == 0,
            final(self).best_cost == old(self).current_cost,
            final(self).current_cost == old(self).current_cost,
            final(self).initial_cost == old(self).initial_cost,
            final(self).iterations == old(self).iterations,
            final(self).evaluations == old(self).evaluations,
            final(self).cost_history@ == old(self).cost_history@.push(old(self).current_cost),
            final(self).evaluations_history@ == old(self).evaluations_history@.push(
                old(self).evaluations,
            ),
    {
        if self.steps < u32::MAX {
            self.steps = self.steps + 1;
        }
        self.iterations_without_improvement = 0;
        self.best_cost = self.current_cost;
        self.cost_history.push(self.best_cost);
        self.evaluations_history.push(self.evaluations);
    }

    /// Closes one engine iteration: both iteration counters advance.
    pub fn on_iteration_end(&mut self)
        ensures
            final(self).iterations == sat_inc(old(self).iterations),
            final(self).iterations_without_improvement == sat_inc(
                old(self).iterations_without_improvement,
            ),
            final(self).steps == old(self).steps,
            final(self).evaluations == old(self).evaluations,
            final(self).initial_cost == old(self).initial_cost,
            final(self).current_cost == old(self).current_cost,
            final(self).best_cost == old(self).best_cost,
            final(self).cost_history@ == old(self).cost_history@,
            final(self).evaluations_history@ == old(self).evaluations_history@,
    {
        if self.iterations < u32::MAX {
            self.iterations = self.iterations + 1;
        }
        if self.iterations_without_improvement < u32::MAX {
            self.iterations_without_improvement = self.iterations_without_improvement + 1;
        }
    }
}

/// Produces the starting tour of a run: always a true permutation of the
/// instance's nodes.  What else the starting tour satisfies is stated per
/// strategy through `init_post`.
pub trait Initializer: Sized {
    /// Strategy-specific statement of the produced tour.
    spec fn init_post(pre: Self, post: Self, instance: ATSP, s: Solution) -> bool;

    fn initialize(&mut self, instance: &ATSP) -> (s: Solution)
        requires
            instance.wf(),
        ensures
            s.wf(),
            s.dimension == instance.dimension,
            is_permutation(s.order@, instance.dimension as int),
            Self::init_post(*old(self), *final(self), *instance, s),
    ;
}

/// One search strategy.  A step may mutate the tour and the record, but must
/// keep the tour a permutation and keep the tracked current cost equal to the
/// tour's true cost; what else a step does is stated per strategy through
/// `step_post`.
pub trait Explorer: Sized {
    /// Strategy-specific well-formedness against the instance.
    spec fn wf(&self, instance: &ATSP) -> bool;

    /// Strategy-specific statement of one step's effect.
    spec fn step_post(
        pre: Self,
        post: Self,
        instance: ATSP,
        sol_pre: Solution,
        sol_post: Solution,
        ctx_pre: Context,
        ctx_post: Context,
    ) -> bool;

    /// What the strategy's stop predicate reads off the record.
    spec fn stop_spec(&self, ctx: Context) -> bool;

    fn explore(&mut self, instance: &ATSP, solution: &mut Solution, context: &mut Context)
        requires
            instance.wf(),
            instance.dimension >= 3,
            old(self).wf(instance),
            old(solution).wf(),
            old(solution).dimension == instance.dimension,
            is_permutation(old(solution).order@, instance.dimension as int),
            old(context).current_cost as int == tour_cost(instance.mat(), old(solution).order@),
        ensures
            final(self).wf(instance),
            final(solution).wf(),
            final(solution).dimension == instance.dimension,
            is_permutation(final(solution).order@, instance.dimension as int),
            final(context).current_cost as int == tour_cost(
                instance.mat(),
                final(solution).order@,
            ),
            final(context).best_cost == old(context).best_cost,
            final(context).initial_cost == old(context).initial_cost,
            final(context).iterations == old(context).iterations,
            final(context).iterations_without_improvement == old(
                context,
            ).iterations_without_improvement,
            final(context).cost_history@ == old(context).cost_history@,
            final(context).evaluations_history@ == old(context).evaluations_history@,
            final(context).evaluations >= old(context).evaluations,
            Self::step_post(
                *old(self),
                *final(self),
                *instance,
                *old(solution),
                *final(solution),
                *old(context),
                *final(context),
            ),
    ;

    fn stop_condition(&self, ctx: &Context) -> (b: bool)
        ensures
            b == self.stop_spec(*ctx),
    ;
}

/// Declares the standard library's monotonic clock reading so that the
/// engine can hold one; its value stays opaque to the verifier.
#[verifier::external_type_specification]
#[verifier::external_body]
pub struct ExInstant(std::time::Instant);

/// Relies on std::time::Instant::now: an opaque reading of the monotonic
/// clock; nothing can be stated of the value.
#[verifier::external_body]
fn now_instant() -> (t: std::time::Instant) {
    std::time::Instant::now()
}

/// Relies on std::time::Instant::elapsed, with the returned span converted to
/// nanoseconds; the value depends on the clock, so nothing is stated of it.
#[verifier::external_body]
fn elapsed_ns(start: &std::time::Instant) -> (ns: u128) {
    start.elapsed().as_nanos()
}

/// The engine: runs the initializer once, then iterates the strategy's step,
/// tracking the best tour seen, until the strategy stops or an optional
/// wall-clock budget runs out.
pub struct SearchAlgorithm<'a, T: Initializer, U: Explorer> {
    pub instance: &'a ATSP,
    pub initializer: T,
    pub explorer: U,
    pub best_solution: Option<Solution>,
    pub max_time: i64,
}

impl<'a, T: Initializer, U: Explorer> SearchAlgorithm<'a, T, U> {
    pub open spec fn wf(&self) -> bool {
        &&& self.instance.wf()
        &&& self.instance.dimension >= 3
        &&& self.explorer.wf(self.instance)
    }

    pub fn new(instance: &'a ATSP, initializer: T, explorer: U, max_time: i64) -> (alg:
        SearchAlgorithm<'a, T, U>)
        requires
            instance.wf(),
            instance.dimension >= 3,
            explorer.wf(instance),
        ensures
            alg.wf(),
            alg.instance == instance,
            alg.max_time == max_time,
    {
        SearchAlgorithm { instance, initializer, explorer, best_solution: None, max_time }
    }

    /// Runs the search.  Whatever the strategy did, the returned record's
    /// best-known cost is exactly the true cost of the returned tour, and the
    /// returned tour is a permutation of the instance's nodes.  The two
    /// improvement histories march together: one sample per improvement, the
    /// sampled costs strictly falling from the initial cost to the best, the
    /// sampled evaluation counts never falling.  A strategy that always stops
    /// and never counts or perturbs anything (the no-op strategy) yields the
    /// initializer's tour after exactly one iteration, with nothing counted.
    /// A time budget of zero or below disables the wall-clock check, leaving
    /// termination to the strategy's own stop predicate; as a last resort the
    /// run ends where the iteration counter would saturate.
    pub fn run(&mut self) -> (r: (Solution, Context))
        requires
            old(self).wf(),
        ensures
            final(self).wf(),
            r.0.wf(),
            r.0.dimension == old(self).instance.dimension,
            is_permutation(r.0.order@, old(self).instance.dimension as int),
            r.1.best_cost as int == tour_cost(old(self).instance.mat(), r.0.order@),
            r.1.best_cost <= r.1.initial_cost,
            r.1.cost_history@.len() >= 1 && r.1.cost_history@.last() == r.1.best_cost,
            r.1.cost_history@.len() == r.1.evaluations_history@.len(),
            r.1.cost_history@[0] == r.1.initial_cost,
            forall|p: int|
                0 <= p < r.1.cost_history@.len() - 1 ==> (#[trigger] r.1.cost_history@[p])
                    > r.1.cost_history@[p + 1],
            forall|p: int|
                0 <= p < r.1.evaluations_history@.len() - 1 ==> (
                #[trigger] r.1.evaluations_history@[p]) <= r.1.evaluations_history@[p + 1],
            r.1.iterations >= 1,
            ({
                let stops_at_once = forall|e: U, c: Context| #[trigger] e.stop_spec(c);
                let never_counts = forall|
                    pre: U,
                    post: U,
                    inst: ATSP,
                    s1: Solution,
                    s2: Solution,
                    c1: Context,
                    c2: Context,
                |
                    #[trigger] U::step_post(pre, post, inst, s1, s2, c1, c2) ==> c2.evaluations
                        == c1.evaluations && c2.steps == c1.steps && c2.current_cost
                        == c1.current_cost;
                stops_at_once && never_counts ==> r.1.iterations == 1 && r.1.steps == 0
                    && r.1.evaluations == 0 && r.1.best_cost == r.1.initial_cost
            }),
    {
        let time_start = now_instant();
        let mut solution = self.initializer.initialize(self.instance);
        let initial_cost = self.instance.cost_of_solution(&solution);

        self.best_solution = Some(solution.clone());

        let mut ctx = Context::new(initial_cost);
        let mut stop_alg = false;

        while !stop_alg && ctx.iterations < u32::MAX
            invariant
                self.instance == old(self).instance,
                self.instance.wf(),
                self.instance.dimension >= 3,
                self.explorer.wf(self.instance),
                solution.wf(),
                solution.dimension == self.instance.dimension,
                is_permutation(solution.order@, self.instance.dimension as int),
                ctx.current_cost as int == tour_cost(self.instance.mat(), solution.order@),
                self.best_solution matches Some(b) && b.wf() && b.dimension
                    == self.instance.dimension && is_permutation(
                    b.order@,
                    self.instance.dimension as int,
                ) && ctx.best_cost as int == tour_cost(self.instance.mat(), b.order@),
                ctx.best_cost <= ctx.initial_cost,
                ctx.initial_cost == initial_cost,
                ctx.cost_history@.len() >= 1 && ctx.cost_history@.last() == ctx.best_cost,
                ctx.cost_history@.len() == ctx.evaluations_history@.len(),
                ctx.cost_history@[0] == initial_cost,
                forall|p: int|
                    0 <= p < ctx.cost_history@.len() - 1 ==> (#[trigger] ctx.cost_history@[p])
                        > ctx.cost_history@[p + 1],
                forall|p: int|
                    0 <= p < ctx.evaluations_history@.len() - 1 ==> (
                    #[trigger] ctx.evaluations_history@[p]) <= ctx.evaluations_history@[p + 1],
                ctx.evaluations_history@.last() <= ctx.evaluations,
                stop_alg ==> ctx.iterations >= 1,
                ({
                    let stops_at_once = forall|e: U, c: Context| #[trigger] e.stop_spec(c);
                    let never_counts = forall|
                        pre: U,
                        post: U,
                        inst: ATSP,
                        s1: Solution,
                        s2: Solution,
                        c1: Context,
                        c2: Context,
                    |
                        #[trigger] U::step_post(pre, post, inst, s1, s2, c1, c2) ==> c2.evaluations
                            == c1.evaluations && c2.steps == c1.steps && c2.current_cost
                            == c1.current_cost;
                    stops_at_once && never_counts ==> ctx.steps == 0 && ctx.evaluations == 0
                        && ctx.current_cost == initial_cost && ctx.best_cost == initial_cost && (
                    stop_alg ==> ctx.iterations == 1) && (!stop_alg ==> ctx.iterations == 0)
                }),
            decreases u32::MAX - ctx.iterations,
        {
            self.explorer.explore(self.instance, &mut solution, &mut ctx);

            if ctx.current_cost < ctx.best_cost {
                self.best_solution = Some(solution.clone());
                ctx.on_change_best();
            }

            let time_break = self.max_time > 0 && elapsed_ns(&time_start) >= (self.max_time
                as u128);
            stop_alg = self.explorer.stop_condition(&ctx) || time_break;
            ctx.on_iteration_end();
        }

        match &self.best_solution {
            Some(best) => (best.clone(), ctx),
            None => {
                proof {
                    assert(false);
                }
                vstd::pervasive::unreached()
            },
        }
    }
}

} // verus!
