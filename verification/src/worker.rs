use vstd::prelude::*;
use crate::env::{Env, lemma_sys_trans};
use crate::math::sat_add;
use crate::reward::{Gamma, spec_discount, discount};
use crate::task::{ExpTask, SimTask, NodeStub, Reply};
use crate::math::sat_add_i64;

verus! {

/// Relies on rand::random: a uniformly drawn value; nothing can be promised
/// of it.
pub assume_specification<T>[ rand::random::<T> ]() -> (r: T)
    where
        rand::distributions::Standard: rand::distributions::Distribution<T>,
;

/// A random index below `n`.
pub fn random_below(n: u64) -> (r: u64)
    requires
        n >= 1,
    ensures
        r < n,
{
    let x: u64 = rand::random::<u64>();
    x % n
}

/// The reply an expansion worker emits when it tries action `a` from the
/// environment `e0` described by the task's checkpoint: the action's reward
/// and terminal flag, and a fresh checkpoint of the result exactly when the
/// action was not terminal.
pub open spec fn exp_outcome_at<E: Env>(e0: E, a: int, saving_idx: u32, task_idx: u32) -> Reply<
    E::Snap,
> {
    let (e1, r, d, info) = e0.step_spec(a as usize);
    Reply::DoneExpansion {
        action: a as usize,
        reward: r,
        done: d,
        child_saturated: info.saturated,
        new_checkpoint: if d {
            None
        } else {
            Some(e1.snap())
        },
        saving_idx: saving_idx,
        task_idx: task_idx,
    }
}

/// The reply is the outcome of expanding some untried action of the stub.
pub open spec fn is_exp_outcome<E: Env>(
    e0: E,
    stub: NodeStub,
    saving_idx: u32,
    task_idx: u32,
    rep: Reply<E::Snap>,
) -> bool {
    exists|a: int|
        0 <= a < stub.action_count && !stub.tried[a] && rep == exp_outcome_at(
            e0,
            a,
            saving_idx,
            task_idx,
        )
}

/// Expansion worker behavior: restore the environment from the task's
/// checkpoint and try one untried action, checkpointing the result when it
/// is not terminal.
pub fn run_expansion<E: Env>(env: &mut E, task: &ExpTask<E::Snap>, saving_idx: u32, task_idx: u32)
    -> (rep: Reply<E::Snap>)
    requires
        old(env).wf(),
        old(env).snap_wf(task.checkpoint_data),
        task.shallow_copy_node.wf(),
        task.shallow_copy_node.has_untried(),
        task.shallow_copy_node.action_count == old(env).with_snap(
            task.checkpoint_data,
        ).action_space(),
    ensures
        is_exp_outcome(
            old(env).with_snap(task.checkpoint_data),
            task.shallow_copy_node,
            saving_idx,
            task_idx,
            rep,
        ),
        (match rep {
            Reply::DoneExpansion { new_checkpoint, .. } => new_checkpoint is Some ==> old(
                env,
            ).snap_wf(new_checkpoint.unwrap()),
            _ => true,
        }),
        final(env).wf(),
        final(env).same_sys(old(env)),
{
    env.restore(&task.checkpoint_data);
    proof {
        old(env).lemma_with_snap(task.checkpoint_data);
    }
    let stub = &task.shallow_copy_node;
    let mut untried: Vec<usize> = Vec::new();
    let mut a: usize = 0;
    while a < stub.action_count
        invariant
            stub.wf(),
            a <= stub.action_count,
            forall|k: int|
                0 <= k < untried.len() ==> {
                    let u = #[trigger] untried[k];
                    u < stub.action_count && !stub.tried[u as int]
                },
            (exists|j: int| 0 <= j < a && !(#[trigger] stub.tried[j])) ==> untried.len() > 0,
        decreases stub.action_count - a,
    {
        if !stub.tried[a] {
            untried.push(a);
        }
        a = a + 1;
    }
    assert(untried.len() > 0);
    let pick = random_below(untried.len() as u64) as usize;
    let action = untried[pick];
    let (reward, done, info) = env.step(action);
    let rep = if done {
        Reply::DoneExpansion {
            action,
            reward,
            done,
            child_saturated: info.saturated,
            new_checkpoint: None,
            saving_idx,
            task_idx,
        }
    } else {
        let ck = env.checkpoint();
        Reply::DoneExpansion {
            action,
            reward,
            done,
            child_saturated: info.saturated,
            new_checkpoint: Some(ck),
            saving_idx,
            task_idx,
        }
    };
    proof {
        let e0 = old(env).with_snap(task.checkpoint_data);
        assert(rep == exp_outcome_at(e0, action as int, saving_idx, task_idx));
        assert(is_exp_outcome(e0, task.shallow_copy_node, saving_idx, task_idx, rep));
        lemma_sys_trans(final(env), &e0, old(env));
        if !done {
            crate::env::lemma_sys_snap_wf(final(env), old(env), final(env).snap());
        }
    }
    rep
}

/// The action sequence is a legal rollout from `e0`: every action is in
/// range and a terminal step is the last.
pub open spec fn valid_rollout<E: Env>(e0: E, acts: Seq<int>) -> bool
    decreases acts.len(),
{
    if acts.len() == 0 {
        true
    } else {
        let a = acts[0];
        0 <= a < e0.action_space() && {
            let (e1, r, d, info) = e0.step_spec(a as usize);
            if d {
                acts.len() == 1
            } else {
                valid_rollout(e1, acts.drop_first())
            }
        }
    }
}

/// The discounted reward a rollout accumulates: each step's reward plus the
/// discounted value of what follows it.
pub open spec fn rollout_value<E: Env>(e0: E, acts: Seq<int>, g: Gamma) -> int
    decreases acts.len(),
{
    if acts.len() == 0 {
        0
    } else {
        let (e1, r, d, info) = e0.step_spec(acts[0] as usize);
        sat_add(
            r as int,
            spec_discount(rollout_value(e1, acts.drop_first(), g), g.num as int, g.den as int),
        )
    }
}

/// The rollout value as a machine integer; it is clamped into range by
/// construction.
pub open spec fn rollout_value_i64<E: Env>(e0: E, acts: Seq<int>, g: Gamma) -> i64 {
    rollout_value(e0, acts, g) as i64
}

/// The rollout's last step reached a terminal state.
pub open spec fn rollout_ends_done<E: Env>(e0: E, acts: Seq<int>) -> bool
    decreases acts.len(),
{
    if acts.len() == 0 {
        false
    } else {
        let (e1, r, d, info) = e0.step_spec(acts[0] as usize);
        if acts.len() == 1 {
            d
        } else {
            rollout_ends_done(e1, acts.drop_first())
        }
    }
}

/// The reply reports the discounted value of some legal rollout from `e0`
/// that is cut off at exactly `max_sim_step` steps or ends in a terminal
/// step before that.
pub open spec fn is_sim_outcome<E: Env>(
    e0: E,
    max_sim_step: u32,
    g: Gamma,
    task_idx: u32,
    rep: Reply<E::Snap>,
) -> bool {
    exists|acts: Seq<int>|
        (acts.len() == max_sim_step || rollout_ends_done(e0, acts)) && #[trigger] valid_rollout(
            e0,
            acts,
        ) && acts.len() <= max_sim_step && rep == (Reply::DoneSimulation::<E::Snap> {
            task_idx: task_idx,
            accu_reward: rollout_value_i64(e0, acts, g),
        })
}

/// Simulation worker behavior: restore the environment from the task's
/// checkpoint and follow a random policy for up to `max_sim_step` further
/// actions, or until a terminal step, accumulating discounted reward.
pub fn run_simulation<E: Env>(
    env: &mut E,
    task: &SimTask<E::Snap>,
    max_sim_step: u32,
    g: &Gamma,
    task_idx: u32,
) -> (rep: Reply<E::Snap>)
    requires
        old(env).wf(),
        old(env).snap_wf(task.checkpoint_data),
        g.wf(),
    ensures
        is_sim_outcome(
            old(env).with_snap(task.checkpoint_data),
            max_sim_step,
            *g,
            task_idx,
            rep,
        ),
        rep is DoneSimulation,
        final(env).wf(),
        final(env).same_sys(old(env)),
{
    env.restore(&task.checkpoint_data);
    proof {
        old(env).lemma_with_snap(task.checkpoint_data);
        env.lemma_canon();
    }
    let ghost e0 = old(env).with_snap(task.checkpoint_data);
    let mut rewards: Vec<i64> = Vec::new();
    let ghost mut envs: Seq<E> = seq![*env];
    let ghost mut acts: Seq<int> = Seq::empty();
    let mut steps: u32 = 0;
    let mut done: bool = false;
    while steps < max_sim_step && !done
        invariant
            g.wf(),
            env.same_sys(&e0),
            steps <= max_sim_step,
            steps as int == acts.len(),
            done ==> acts.len() >= 1,
            envs.len() == acts.len() + 1,
            rewards.len() == acts.len(),
            envs[0] == e0,
            *env == envs.last(),
            env.wf(),
            forall|k: int| 0 <= k < envs.len() ==> (#[trigger] envs[k]).wf(),
            forall|k: int|
                0 <= k < acts.len() ==> 0 <= #[trigger] acts[k] < envs[k].action_space(),
            forall|k: int|
                0 <= k < acts.len() ==> {
                    let st = (#[trigger] envs[k]).step_spec(acts[k] as usize);
                    st.0 == envs[k + 1] && st.1 == rewards[k] && (st.2 <==> (k == acts.len() - 1
                        && done))
                },
        decreases max_sim_step - steps,
    {
        let ghost pre = *env;
        proof {
            env.lemma_canon();
        }
        let n = env.get_action_space();
        let a = random_below(n as u64) as usize;
        let (r, d, info) = env.step(a);
        rewards.push(r);
        done = d;
        proof {
            lemma_sys_trans(env, &pre, &e0);
            envs = envs.push(*env);
            acts = acts.push(a as int);
            assert(envs.last() == *env);
            assert forall|k: int| 0 <= k < acts.len() implies {
                let st = (#[trigger] envs[k]).step_spec(acts[k] as usize);
                st.0 == envs[k + 1] && st.1 == rewards[k] && (st.2 <==> (k == acts.len() - 1
                    && done))
            } by {
                if k < acts.len() - 1 {
                    assert(envs[k] == envs.drop_last()[k]);
                    assert(acts[k] == acts.drop_last()[k]);
                }
            }
        }
        steps = steps + 1;
    }
    let mut accu: i64 = 0;
    let mut k: usize = rewards.len();
    proof {
        assert(acts.skip(k as int) =~= Seq::<int>::empty());
    }
    while k > 0
        invariant
            g.wf(),
            k <= rewards.len(),
            envs.len() == acts.len() + 1,
            rewards.len() == acts.len(),
            envs[0] == e0,
            forall|j: int|
                0 <= j < acts.len() ==> 0 <= #[trigger] acts[j] < envs[j].action_space(),
            forall|j: int|
                0 <= j < acts.len() ==> {
                    let st = (#[trigger] envs[j]).step_spec(acts[j] as usize);
                    st.0 == envs[j + 1] && st.1 == rewards[j] && (st.2 <==> (j == acts.len() - 1
                        && done))
                },
            valid_rollout(envs[k as int], acts.skip(k as int)),
            accu as int == rollout_value(envs[k as int], acts.skip(k as int), *g),
            rollout_ends_done(envs[k as int], acts.skip(k as int)) == (done && (k as int)
                < acts.len()),
        decreases k,
    {
        k = k - 1;
        let r = rewards[k];
        accu = sat_add_i64(r, discount(accu, g));
        proof {
            assert(acts.skip(k as int).drop_first() =~= acts.skip(k as int + 1));
            assert(acts.skip(k as int)[0] == acts[k as int]);
            let st = envs[k as int].step_spec(acts[k as int] as usize);
            assert(st.0 == envs[k as int + 1]);
            assert(valid_rollout(envs[k as int], acts.skip(k as int)));
            assert(accu as int == rollout_value(envs[k as int], acts.skip(k as int), *g));
            assert(rollout_ends_done(envs[k as int], acts.skip(k as int)) == (done && (k as int)
                < acts.len()));
        }
    }
    proof {
        assert(acts.skip(0) =~= acts);
        lemma_sys_trans(final(env), &e0, old(env));
        assert(accu as int == rollout_value(e0, acts, *g));
        assert(accu == rollout_value_i64(e0, acts, *g));
        assert(acts.len() <= max_sim_step && valid_rollout(e0, acts));
        assert(acts.skip(0) == acts);
        assert(rollout_ends_done(e0, acts) == (done && 0 < acts.len()));
        assert(steps == max_sim_step || done);
        assert(acts.len() == max_sim_step || rollout_ends_done(e0, acts));
    }
    Reply::DoneSimulation { task_idx, accu_reward: accu }
}

} // verus!
