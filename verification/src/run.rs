use vstd::prelude::*;
use crate::env::{Env, lemma_sys_sym, lemma_sys_trans};
use crate::math::sat_add;
use crate::reward::{Gamma, MILLI};
use crate::tree::{Tree, RunResult, steps_fold, steps_valid, steps_reward_from, steps_last_best, steps_last_done};

verus! {

/// The planner's parameter bundle.  `lp_extract`, `node_limit` and
/// `time_limit` configure the rewrite engine behind the environment, not
/// the search itself, and are handed through to whoever builds the
/// environments.
#[derive(Clone, Copy, PartialEq, Eq, Structural, Debug)]
pub struct MCTSArgs {
    pub budget: u32,
    pub max_sim_step: u32,
    pub gamma: Gamma,
    pub expansion_worker_num: usize,
    pub simulation_worker_num: usize,
    pub cost_threshold: u32,
    pub iter_limit: usize,
    pub lp_extract: bool,
    pub node_limit: usize,
    pub time_limit: usize,
}

impl MCTSArgs {
    pub open spec fn wf(self) -> bool {
        &&& self.expansion_worker_num == 1
        &&& self.simulation_worker_num >= 1
        &&& self.gamma.wf()
    }
}

/// Optimize the environment in place: build the search tree over the given
/// worker environments and run the outer planning loop until a stopping
/// criterion holds.
pub fn run_mcts<E: Env>(
    env: &mut E,
    expansion_workers: Vec<E>,
    simulation_workers: Vec<E>,
    args: MCTSArgs,
) -> (r: RunResult)
    requires
        args.wf(),
        expansion_workers.len() == args.expansion_worker_num,
        simulation_workers.len() == args.simulation_worker_num,
        old(env).wf(),
        forall|i: int|
            0 <= i < expansion_workers.len() ==> (#[trigger] expansion_workers[i]).wf(),
        forall|i: int|
            0 <= i < simulation_workers.len() ==> (#[trigger] simulation_workers[i]).wf(),
        forall|i: int|
            0 <= i < expansion_workers.len() ==> (#[trigger] expansion_workers[i]).same_sys(
                old(env),
            ),
        forall|i: int|
            0 <= i < simulation_workers.len() ==> (#[trigger] simulation_workers[i]).same_sys(
                old(env),
            ),
    ensures
        final(env).wf(),
        r.iterations >= 1,
        args.iter_limit >= 1 ==> r.iterations <= args.iter_limit,
        exists|acts: Seq<usize>|
            {
                &&& acts.len() == r.iterations
                &&& #[trigger] steps_valid(old(env).with_snap(old(env).reset_snap()), acts)
                &&& *final(env) == steps_fold(old(env).with_snap(old(env).reset_snap()), acts)
                &&& r.episode_reward as int == steps_reward_from(
                    old(env).with_snap(old(env).reset_snap()),
                    acts,
                    0,
                )
                &&& r.best_cost == steps_last_best(
                    old(env).with_snap(old(env).reset_snap()),
                    acts,
                    0u32,
                )
                &&& (r.iterations >= args.iter_limit || steps_last_done(
                    old(env).with_snap(old(env).reset_snap()),
                    acts,
                    false,
                ) || steps_last_best(old(env).with_snap(old(env).reset_snap()), acts, 0u32)
                    < args.cost_threshold || sat_add(r.this_score as int, r.last_score as int) < 2
                    * MILLI)
            },
{
    proof {
        assert forall|i: int| 0 <= i < simulation_workers.len() implies (
        #[trigger] simulation_workers[i]).same_sys(&expansion_workers[0]) by {
            lemma_sys_sym(&expansion_workers[0], old(env));
            lemma_sys_trans(&simulation_workers[i], old(env), &expansion_workers[0]);
        }
        lemma_sys_sym(&expansion_workers[0], old(env));
    }
    let ghost exp0 = expansion_workers[0];
    let mut tree = Tree::new(
        args.budget,
        args.max_sim_step,
        args.gamma,
        expansion_workers,
        simulation_workers,
    );
    tree.run_loop(env, args.cost_threshold, args.iter_limit)
}

} // verus!
