use vstd::prelude::*;
use crate::env::{Env, lemma_sys_trans, lemma_sys_sym, lemma_sys_snap_wf, lemma_sys_action_space};
use crate::math::sat_add;
use crate::math::sat_add_i64;
use crate::node::{Node, NodeView};
use crate::pool::PoolManager;
use crate::reward::{Gamma, MILLI};
use crate::task::{ExpTask, SimTask, Reply};
use crate::worker::random_below;

verus! {

/// The fields of a node that the backpropagation walks never change: the
/// tree structure and the per-action identities.
pub open spec fn same_shape(a: NodeView, b: NodeView) -> bool {
    &&& a.action_count == b.action_count
    &&& a.checkpoint_idx == b.checkpoint_idx
    &&& a.is_head == b.is_head
    &&& a.parent == b.parent
    &&& a.children == b.children
}

/// Probability, as a ratio, that selection expands an unsaturated
/// non-root node instead of following the confidence bound; configuration
/// of the exploration heuristic, not a tuned magic number.
pub const EXPANSION_PROB_NUM: u64 = 1;

pub const EXPANSION_PROB_DEN: u64 = 2;

/// The fields of a node that identify it: everything of its shape except
/// the children, which materialize as actions are expanded.
pub open spec fn same_core(a: NodeView, b: NodeView) -> bool {
    &&& a.action_count == b.action_count
    &&& a.checkpoint_idx == b.checkpoint_idx
    &&& a.is_head == b.is_head
    &&& a.parent == b.parent
}

/// The arena is a tree: the root sits at index zero, every parent index is
/// smaller than its child's, and every child index is larger, so walks in
/// either direction terminate.
pub open spec fn arena_wf(nodes: Seq<Node>) -> bool {
    forall|i: int|
        0 <= i < nodes.len() ==> {
            let n = (#[trigger] nodes[i])@;
            &&& n.wf()
            &&& (n.is_head <==> i == 0)
            &&& (n.parent is None <==> i == 0)
            &&& (n.parent is Some ==> n.parent.unwrap() < i)
            &&& forall|a: int|
                0 <= a < n.action_count && (#[trigger] n.children[a]) is Some ==> i
                    < n.children[a].unwrap() < nodes.len()
        }
}

/// `i` lies on the parent chain that starts at `at` (both the start and
/// the root the chain ends in are on it).
pub open spec fn on_path(nodes: Seq<Node>, at: int, i: int) -> bool
    decreases at,
{
    i == at || (match nodes[at]@.parent {
        Some(p) => p < at && on_path(nodes, p as int, i),
        None => false,
    })
}

/// Everything on a chain sits at or below its start.
pub proof fn lemma_on_path_le(nodes: Seq<Node>, at: int, i: int)
    requires
        0 <= at,
        on_path(nodes, at, i),
    ensures
        0 <= i <= at,
    decreases at,
{
    if i != at {
        let p = nodes[at]@.parent.unwrap() as int;
        lemma_on_path_le(nodes, p, i);
    }
}

/// A chain that reaches `curr` also reaches `curr`'s parent.
pub proof fn lemma_on_path_extend(nodes: Seq<Node>, start: int, curr: int, p: usize)
    requires
        0 <= start,
        on_path(nodes, start, curr),
        nodes[curr]@.parent == Some(p),
        (p as int) < curr,
    ensures
        on_path(nodes, start, p as int),
    decreases start,
{
    if start == curr {
        assert(on_path(nodes, p as int, p as int));
        assert(nodes[start]@.parent matches Some(pp) && pp < start && on_path(
            nodes,
            pp as int,
            p as int,
        ));
    } else {
        let q = nodes[start]@.parent.unwrap() as int;
        assert(nodes[start]@.parent matches Some(qq) && qq < start && on_path(
            nodes,
            qq as int,
            curr,
        ));
        lemma_on_path_extend(nodes, q, curr, p);
        assert(on_path(nodes, q, p as int));
    }
}

/// The rolled reward that reaches node `i` when a resolution for
/// `task_idx` starts at `at` with value `below` and climbs the parent
/// chain, each level handing up its backed-up value.
pub open spec fn arriving(
    nodes: Seq<Node>,
    g: Gamma,
    task_idx: u32,
    below: int,
    at: int,
    i: int,
) -> int
    decreases at,
{
    if i == at {
        below
    } else {
        match nodes[at]@.parent {
            Some(p) => if p < at {
                arriving(
                    nodes,
                    g,
                    task_idx,
                    nodes[at]@.spec_update_complete(task_idx, below, g).1,
                    p as int,
                    i,
                )
            } else {
                below
            },
            None => below,
        }
    }
}

/// Climbing one level: what arrives at `curr`'s parent is `curr`'s
/// backed-up value of what arrived at `curr`.
pub proof fn lemma_arriving_step(
    nodes: Seq<Node>,
    g: Gamma,
    task_idx: u32,
    below: int,
    start: int,
    curr: int,
    p: usize,
)
    requires
        0 <= start,
        on_path(nodes, start, curr),
        nodes[curr]@.parent == Some(p),
        (p as int) < curr,
    ensures
        arriving(nodes, g, task_idx, below, start, p as int) == nodes[curr]@.spec_update_complete(
            task_idx,
            arriving(nodes, g, task_idx, below, start, curr),
            g,
        ).1,
    decreases start,
{
    if start == curr {
        let out = nodes[curr]@.spec_update_complete(task_idx, below, g).1;
        assert(arriving(nodes, g, task_idx, below, start, curr) == below);
        assert(p as int != start);
        assert(nodes[start]@.parent matches Some(pp) && pp < start && arriving(
            nodes,
            g,
            task_idx,
            below,
            start,
            p as int,
        ) == arriving(nodes, g, task_idx, out, pp as int, p as int));
        assert(arriving(nodes, g, task_idx, out, p as int, p as int) == out);
    } else {
        let q = nodes[start]@.parent.unwrap() as int;
        let out = nodes[start]@.spec_update_complete(task_idx, below, g).1;
        lemma_on_path_le(nodes, start, curr);
        assert(q < start && on_path(nodes, q, curr));
        assert(p as int != start);
        assert(curr != start);
        assert(arriving(nodes, g, task_idx, below, start, p as int) == arriving(
            nodes,
            g,
            task_idx,
            out,
            q,
            p as int,
        ));
        assert(arriving(nodes, g, task_idx, below, start, curr) == arriving(
            nodes,
            g,
            task_idx,
            out,
            q,
            curr,
        ));
        lemma_arriving_step(nodes, g, task_idx, out, q, curr, p);
    }
}

/// The environment after taking the actions in order.
pub open spec fn steps_fold<E: Env>(e: E, acts: Seq<usize>) -> E
    decreases acts.len(),
{
    if acts.len() == 0 {
        e
    } else {
        steps_fold(e.step_spec(acts[0]).0, acts.drop_first())
    }
}

/// Every action is legal at the state it is taken in.
pub open spec fn steps_valid<E: Env>(e: E, acts: Seq<usize>) -> bool
    decreases acts.len(),
{
    if acts.len() == 0 {
        true
    } else {
        acts[0] < e.action_space() && steps_valid(e.step_spec(acts[0]).0, acts.drop_first())
    }
}

/// The saturating sum of the step rewards along the actions, from `acc`.
pub open spec fn steps_reward_from<E: Env>(e: E, acts: Seq<usize>, acc: int) -> int
    decreases acts.len(),
{
    if acts.len() == 0 {
        acc
    } else {
        steps_reward_from(
            e.step_spec(acts[0]).0,
            acts.drop_first(),
            sat_add(acc, e.step_spec(acts[0]).1 as int),
        )
    }
}

/// The best cost the last step reported (`dflt` when no step was taken).
pub open spec fn steps_last_best<E: Env>(e: E, acts: Seq<usize>, dflt: u32) -> u32
    decreases acts.len(),
{
    if acts.len() == 0 {
        dflt
    } else {
        steps_last_best(e.step_spec(acts[0]).0, acts.drop_first(), e.step_spec(acts[0]).3.best_cost)
    }
}

/// Whether the last step reported a terminal state (`dflt` when no step
/// was taken).
pub open spec fn steps_last_done<E: Env>(e: E, acts: Seq<usize>, dflt: bool) -> bool
    decreases acts.len(),
{
    if acts.len() == 0 {
        dflt
    } else {
        steps_last_done(e.step_spec(acts[0]).0, acts.drop_first(), e.step_spec(acts[0]).2)
    }
}

/// Taking one more action extends each fold by one step at the end.
pub proof fn lemma_steps_push<E: Env>(e: E, acts: Seq<usize>, a: usize, acc: int, dflt: u32, dflt2: bool)
    ensures
        steps_fold(e, acts.push(a)) == steps_fold(e, acts).step_spec(a).0,
        steps_valid(e, acts.push(a)) == (steps_valid(e, acts) && a < steps_fold(
            e,
            acts,
        ).action_space()),
        steps_reward_from(e, acts.push(a), acc) == sat_add(
            steps_reward_from(e, acts, acc),
            steps_fold(e, acts).step_spec(a).1 as int,
        ),
        steps_last_best(e, acts.push(a), dflt) == steps_fold(e, acts).step_spec(a).3.best_cost,
        steps_last_done(e, acts.push(a), dflt2) == steps_fold(e, acts).step_spec(a).2,
    decreases acts.len(),
{
    if acts.len() == 0 {
        assert(acts.push(a)[0] == a);
        assert(acts.push(a).drop_first() =~= Seq::<usize>::empty());
        assert(steps_fold(e, acts) == e);
        assert(steps_valid(e, acts));
        assert(steps_reward_from(e, acts, acc) == acc);
        assert(steps_fold(e, acts.push(a)) == steps_fold(
            e.step_spec(a).0,
            acts.push(a).drop_first(),
        ));
        assert(steps_fold(e.step_spec(a).0, acts.push(a).drop_first()) == e.step_spec(a).0);
        assert(steps_valid(e, acts.push(a)) == (a < e.action_space() && steps_valid(
            e.step_spec(a).0,
            acts.push(a).drop_first(),
        )));
        assert(steps_valid(e.step_spec(a).0, acts.push(a).drop_first()));
        assert(steps_reward_from(e, acts.push(a), acc) == steps_reward_from(
            e.step_spec(a).0,
            acts.push(a).drop_first(),
            sat_add(acc, e.step_spec(a).1 as int),
        ));
        assert(steps_reward_from(
            e.step_spec(a).0,
            acts.push(a).drop_first(),
            sat_add(acc, e.step_spec(a).1 as int),
        ) == sat_add(acc, e.step_spec(a).1 as int));
        assert(steps_last_best(e, acts.push(a), dflt) == steps_last_best(
            e.step_spec(a).0,
            acts.push(a).drop_first(),
            e.step_spec(a).3.best_cost,
        ));
        assert(steps_last_best(
            e.step_spec(a).0,
            acts.push(a).drop_first(),
            e.step_spec(a).3.best_cost,
        ) == e.step_spec(a).3.best_cost);
        assert(steps_last_done(e, acts.push(a), dflt2) == steps_last_done(
            e.step_spec(a).0,
            acts.push(a).drop_first(),
            e.step_spec(a).2,
        ));
        assert(steps_last_done(e.step_spec(a).0, acts.push(a).drop_first(), e.step_spec(a).2)
            == e.step_spec(a).2);
    } else {
        assert(acts.push(a)[0] == acts[0]);
        assert(acts.push(a).drop_first() =~= acts.drop_first().push(a));
        let e1 = e.step_spec(acts[0]).0;
        lemma_steps_push(e1, acts.drop_first(), a, sat_add(acc, e.step_spec(acts[0]).1 as int),
            e.step_spec(acts[0]).3.best_cost, e.step_spec(acts[0]).2);
        assert(steps_fold(e, acts.push(a)) == steps_fold(e1, acts.drop_first().push(a)));
        assert(steps_fold(e, acts) == steps_fold(e1, acts.drop_first()));
        assert(steps_valid(e, acts.push(a)) == (acts[0] < e.action_space() && steps_valid(
            e1,
            acts.drop_first().push(a),
        )));
        assert(steps_reward_from(e, acts.push(a), acc) == steps_reward_from(
            e1,
            acts.drop_first().push(a),
            sat_add(acc, e.step_spec(acts[0]).1 as int),
        ));
        assert(steps_last_best(e, acts.push(a), dflt) == steps_last_best(
            e1,
            acts.drop_first().push(a),
            e.step_spec(acts[0]).3.best_cost,
        ));
        assert(steps_last_done(e, acts.push(a), dflt2) == steps_last_done(
            e1,
            acts.drop_first().push(a),
            e.step_spec(acts[0]).2,
        ));
    }
}

/// The search orchestrator: the tree arena, the two worker pools, the
/// checkpoint table, the in-flight task tables and the pending queues,
/// all scoped to one planning call.
pub struct Tree<E: Env> {
    pub budget: u32,
    pub gamma: Gamma,
    pub exp_pool: PoolManager<E>,
    pub sim_pool: PoolManager<E>,
    pub ckpts: Vec<Option<E::Snap>>,
    pub nodes: Vec<Node>,
    pub global_saving_idx: u32,
    pub simulation_count: u32,
    pub expansion_tasks: Vec<Option<ExpTask<E::Snap>>>,
    pub expansion_nodes_copy: Vec<Option<usize>>,
    pub simulation_tasks: Vec<Option<SimTask<E::Snap>>>,
    pub simulation_nodes_copy: Vec<Option<usize>>,
    pub pending_expansion_tasks: Vec<u32>,
    pub pending_simulation_tasks: Vec<u32>,
}

impl<E: Env> Tree<E> {
    /// The environment whose system everything in the tree refers to.
    pub open spec fn anchor(&self) -> E {
        self.exp_pool.rep()
    }

    /// The action space of the system being planned over.
    pub open spec fn space(&self) -> int {
        self.anchor().action_space() as int
    }

    pub open spec fn wf(&self) -> bool {
        &&& self.gamma.wf()
        &&& self.exp_pool.wf()
        &&& self.sim_pool.wf()
        &&& self.exp_pool.num() == 1
        &&& self.sim_pool.rep().same_sys(&self.exp_pool.rep())
        &&& arena_wf(self.nodes@)
        &&& forall|i: int|
            0 <= i < self.nodes.len() ==> (#[trigger] self.nodes[i])@.action_count
                == self.space()
        &&& self.expansion_tasks.len() == self.expansion_nodes_copy.len()
        &&& self.simulation_tasks.len() == self.simulation_nodes_copy.len()
        &&& forall|i: int|
            0 <= i < self.ckpts.len() && (#[trigger] self.ckpts[i]) is Some
                ==> self.anchor().snap_wf(self.ckpts[i].unwrap())
        &&& forall|i: int|
            0 <= i < self.expansion_tasks.len() && (#[trigger] self.expansion_tasks[i]) is Some
                ==> {
                let t = self.expansion_tasks[i].unwrap();
                &&& self.anchor().snap_wf(t.checkpoint_data)
                &&& t.shallow_copy_node.wf()
                &&& t.shallow_copy_node.has_untried()
                &&& t.shallow_copy_node.action_count == self.space()
            }
        &&& forall|i: int|
            0 <= i < self.simulation_tasks.len() && (#[trigger] self.simulation_tasks[i]) is Some
                ==> self.anchor().snap_wf(self.simulation_tasks[i].unwrap().checkpoint_data)
        &&& forall|i: int|
            0 <= i < self.expansion_nodes_copy.len() && (#[trigger] self.expansion_nodes_copy[i])
                is Some ==> self.expansion_nodes_copy[i].unwrap() < self.nodes.len()
        &&& forall|i: int|
            0 <= i < self.simulation_nodes_copy.len() && (#[trigger] self.simulation_nodes_copy[i])
                is Some ==> self.simulation_nodes_copy[i].unwrap() < self.nodes.len()
    }

    /// Build a planner from its parameter bundle and the worker
    /// environments.  The expansion pool is constrained to exactly one
    /// worker: concurrent expansion of one tree region is unsafe for this
    /// bookkeeping.
    pub fn new(
        budget: u32,
        max_sim_step: u32,
        gamma: Gamma,
        expansion_workers: Vec<E>,
        simulation_workers: Vec<E>,
    ) -> (t: Tree<E>)
        requires
            gamma.wf(),
            expansion_workers.len() == 1,
            simulation_workers.len() >= 1,
            forall|i: int|
                0 <= i < expansion_workers.len() ==> (#[trigger] expansion_workers[i]).wf(),
            forall|i: int|
                0 <= i < simulation_workers.len() ==> (#[trigger] simulation_workers[i]).wf(),
            forall|i: int|
                0 <= i < simulation_workers.len() ==> (#[trigger] simulation_workers[i]).same_sys(
                    &expansion_workers[0],
                ),
        ensures
            t.wf(),
            t.budget == budget,
            t.gamma == gamma,
            t.anchor() == expansion_workers[0],
            t.nodes@.len() == 0,
            t.exp_pool.busy_count() == 0,
            t.sim_pool.busy_count() == 0,
            t.exp_pool.num() == 1,
            t.sim_pool.num() == simulation_workers.len(),
            t.exp_pool.gamma == gamma,
            t.sim_pool.gamma == gamma,
            t.exp_pool.max_sim_step == max_sim_step,
            t.sim_pool.max_sim_step == max_sim_step,
            t.global_saving_idx == 0,
            t.simulation_count == 0,
            t.ckpts@.len() == 0,
            t.expansion_tasks@.len() == 0,
            t.expansion_nodes_copy@.len() == 0,
            t.simulation_tasks@.len() == 0,
            t.simulation_nodes_copy@.len() == 0,
            t.pending_expansion_tasks@.len() == 0,
            t.pending_simulation_tasks@.len() == 0,
    {
        proof {
            expansion_workers[0].lemma_canon();
            assert forall|i: int| 0 <= i < simulation_workers.len() implies (
            #[trigger] simulation_workers[i]).same_sys(&simulation_workers[0]) by {
                lemma_sys_sym(&simulation_workers[0], &expansion_workers[0]);
                lemma_sys_trans(
                    &simulation_workers[i],
                    &expansion_workers[0],
                    &simulation_workers[0],
                );
            }
        }
        let ghost exp0 = expansion_workers[0];
        let exp_pool = PoolManager::new(expansion_workers, gamma, max_sim_step);
        let sim_pool = PoolManager::new(simulation_workers, gamma, max_sim_step);
        let t = Tree {
            budget,
            gamma,
            exp_pool,
            sim_pool,
            ckpts: Vec::new(),
            nodes: Vec::new(),
            global_saving_idx: 0,
            simulation_count: 0,
            expansion_tasks: Vec::new(),
            expansion_nodes_copy: Vec::new(),
            simulation_tasks: Vec::new(),
            simulation_nodes_copy: Vec::new(),
            pending_expansion_tasks: Vec::new(),
            pending_simulation_tasks: Vec::new(),
        };
        t
    }

    /// Walk parent references from `start` to the root, registering a
    /// pending (virtual-loss) visit for `task_idx` at every node on the
    /// chain (and nowhere else), so concurrent selection rounds do not
    /// re-select the same in-flight branch.
    pub fn incomplete_update(&mut self, start: usize, task_idx: u32)
        requires
            old(self).wf(),
            start < old(self).nodes.len(),
        ensures
            final(self).wf(),
            final(self).nodes.len() == old(self).nodes.len(),
            forall|i: int|
                0 <= i < old(self).nodes.len() ==> (#[trigger] final(self).nodes[i])@ == (
                if on_path(old(self).nodes@, start as int, i) {
                    old(self).nodes[i]@.spec_update_incomplete(task_idx)
                } else {
                    old(self).nodes[i]@
                }),
            forall|i: int|
                0 <= i < old(self).nodes.len() ==> same_shape(
                    (#[trigger] final(self).nodes[i])@,
                    old(self).nodes[i]@,
                ),
            final(self).budget == old(self).budget,
            final(self).gamma == old(self).gamma,
            final(self).exp_pool == old(self).exp_pool,
            final(self).sim_pool == old(self).sim_pool,
            final(self).ckpts == old(self).ckpts,
            final(self).global_saving_idx == old(self).global_saving_idx,
            final(self).simulation_count == old(self).simulation_count,
            final(self).expansion_tasks == old(self).expansion_tasks,
            final(self).expansion_nodes_copy == old(self).expansion_nodes_copy,
            final(self).simulation_tasks == old(self).simulation_tasks,
            final(self).simulation_nodes_copy == old(self).simulation_nodes_copy,
            final(self).pending_expansion_tasks == old(self).pending_expansion_tasks,
            final(self).pending_simulation_tasks == old(self).pending_simulation_tasks,
    {
        let ghost onodes = old(self).nodes@;
        let mut curr = start;
        loop
            invariant_except_break
                forall|i: int|
                    0 <= i < old(self).nodes.len() ==> (#[trigger] self.nodes[i])@ == (
                    if on_path(onodes, start as int, i) && !on_path(onodes, curr as int, i) {
                        onodes[i]@.spec_update_incomplete(task_idx)
                    } else {
                        onodes[i]@
                    }),
            invariant
                self.wf(),
                curr < self.nodes.len(),
                self.nodes.len() == old(self).nodes.len(),
                onodes == old(self).nodes@,
                start < old(self).nodes.len(),
                on_path(onodes, start as int, curr as int),
                forall|i: int|
                    0 <= i < old(self).nodes.len() ==> same_shape(
                        (#[trigger] self.nodes[i])@,
                        old(self).nodes[i]@,
                    ),
                self.budget == old(self).budget,
                self.gamma == old(self).gamma,
                self.exp_pool == old(self).exp_pool,
                self.sim_pool == old(self).sim_pool,
                self.ckpts == old(self).ckpts,
                self.global_saving_idx == old(self).global_saving_idx,
                self.simulation_count == old(self).simulation_count,
                self.expansion_tasks == old(self).expansion_tasks,
                self.expansion_nodes_copy == old(self).expansion_nodes_copy,
                self.simulation_tasks == old(self).simulation_tasks,
                self.simulation_nodes_copy == old(self).simulation_nodes_copy,
                self.pending_expansion_tasks == old(self).pending_expansion_tasks,
                self.pending_simulation_tasks == old(self).pending_simulation_tasks,
            ensures
                forall|i: int|
                    0 <= i < old(self).nodes.len() ==> (#[trigger] self.nodes[i])@ == (
                    if on_path(onodes, start as int, i) {
                        onodes[i]@.spec_update_incomplete(task_idx)
                    } else {
                        onodes[i]@
                    }),
            decreases curr,
        {
            let ghost pre = *self;
            let mut n = self.nodes.remove(curr);
            n.update_incomplete(task_idx);
            self.nodes.insert(curr, n);
            proof {
                assert(self.nodes@ =~= pre.nodes@.update(curr as int, self.nodes@[curr as int]));
                assert(pre.nodes[curr as int]@ == onodes[curr as int]@);
                self.lemma_wf_after_node_update(pre, curr as int);
            }
            match self.nodes[curr].parent {
                None => {
                    proof {
                        assert(onodes[curr as int]@.parent is None);
                        assert forall|i: int| 0 <= i < old(self).nodes.len() implies (
                        #[trigger] self.nodes[i])@ == (if on_path(onodes, start as int, i) {
                            onodes[i]@.spec_update_incomplete(task_idx)
                        } else {
                            onodes[i]@
                        }) by {
                            if i != curr as int {
                                assert(!on_path(onodes, curr as int, i));
                            }
                        }
                    }
                    break ;
                },
                Some(p) => {
                    proof {
                        assert(onodes[curr as int]@.parent == Some(p));
                        assert(p < curr);
                        lemma_on_path_extend(onodes, start as int, curr as int, p);
                        lemma_on_path_le(onodes, p as int, p as int);
                        assert forall|i: int| 0 <= i < old(self).nodes.len() implies (
                        #[trigger] self.nodes[i])@ == (if on_path(onodes, start as int, i)
                            && !on_path(onodes, p as int, i) {
                            onodes[i]@.spec_update_incomplete(task_idx)
                        } else {
                            onodes[i]@
                        }) by {
                            if i == curr as int {
                                if on_path(onodes, p as int, i) {
                                    lemma_on_path_le(onodes, p as int, i);
                                }
                            } else {
                                assert(on_path(onodes, curr as int, i) == on_path(
                                    onodes,
                                    p as int,
                                    i,
                                ));
                            }
                        }
                    }
                    curr = p;
                },
            }
        }
    }

    /// Walk parent references from `start` to the root, resolving the
    /// pending visit of `task_idx` at every node on the chain (and nowhere
    /// else): the node at `start` resolves with `accu_reward`, and each
    /// level above resolves with the backed-up value the level below
    /// handed it, compounding the discount on the way up.
    pub fn complete_update(&mut self, start: usize, task_idx: u32, accu_reward: i64)
        requires
            old(self).wf(),
            start < old(self).nodes.len(),
        ensures
            final(self).wf(),
            final(self).nodes.len() == old(self).nodes.len(),
            forall|i: int|
                0 <= i < old(self).nodes.len() ==> (#[trigger] final(self).nodes[i])@ == (
                if on_path(old(self).nodes@, start as int, i) {
                    old(self).nodes[i]@.spec_update_complete(
                        task_idx,
                        arriving(
                            old(self).nodes@,
                            old(self).gamma,
                            task_idx,
                            accu_reward as int,
                            start as int,
                            i,
                        ),
                        old(self).gamma,
                    ).0
                } else {
                    old(self).nodes[i]@
                }),
            forall|i: int|
                0 <= i < old(self).nodes.len() ==> same_shape(
                    (#[trigger] final(self).nodes[i])@,
                    old(self).nodes[i]@,
                ),
            final(self).budget == old(self).budget,
            final(self).gamma == old(self).gamma,
            final(self).exp_pool == old(self).exp_pool,
            final(self).sim_pool == old(self).sim_pool,
            final(self).ckpts == old(self).ckpts,
            final(self).global_saving_idx == old(self).global_saving_idx,
            final(self).simulation_count == old(self).simulation_count,
            final(self).expansion_tasks == old(self).expansion_tasks,
            final(self).expansion_nodes_copy == old(self).expansion_nodes_copy,
            final(self).simulation_tasks == old(self).simulation_tasks,
            final(self).simulation_nodes_copy == old(self).simulation_nodes_copy,
            final(self).pending_expansion_tasks == old(self).pending_expansion_tasks,
            final(self).pending_simulation_tasks == old(self).pending_simulation_tasks,
    {
        let ghost onodes = old(self).nodes@;
        let ghost og = old(self).gamma;
        let mut curr = start;
        let mut rolling = accu_reward;
        loop
            invariant_except_break
                forall|i: int|
                    0 <= i < old(self).nodes.len() ==> (#[trigger] self.nodes[i])@ == (
                    if on_path(onodes, start as int, i) && !on_path(onodes, curr as int, i) {
                        onodes[i]@.spec_update_complete(
                            task_idx,
                            arriving(onodes, og, task_idx, accu_reward as int, start as int, i),
                            og,
                        ).0
                    } else {
                        onodes[i]@
                    }),
                rolling as int == arriving(
                    onodes,
                    og,
                    task_idx,
                    accu_reward as int,
                    start as int,
                    curr as int,
                ),
            invariant
                self.wf(),
                curr < self.nodes.len(),
                self.nodes.len() == old(self).nodes.len(),
                onodes == old(self).nodes@,
                og == old(self).gamma,
                start < old(self).nodes.len(),
                on_path(onodes, start as int, curr as int),
                forall|i: int|
                    0 <= i < old(self).nodes.len() ==> same_shape(
                        (#[trigger] self.nodes[i])@,
                        old(self).nodes[i]@,
                    ),
                self.budget == old(self).budget,
                self.gamma == old(self).gamma,
                self.exp_pool == old(self).exp_pool,
                self.sim_pool == old(self).sim_pool,
                self.ckpts == old(self).ckpts,
                self.global_saving_idx == old(self).global_saving_idx,
                self.simulation_count == old(self).simulation_count,
                self.expansion_tasks == old(self).expansion_tasks,
                self.expansion_nodes_copy == old(self).expansion_nodes_copy,
                self.simulation_tasks == old(self).simulation_tasks,
                self.simulation_nodes_copy == old(self).simulation_nodes_copy,
                self.pending_expansion_tasks == old(self).pending_expansion_tasks,
                self.pending_simulation_tasks == old(self).pending_simulation_tasks,
            ensures
                forall|i: int|
                    0 <= i < old(self).nodes.len() ==> (#[trigger] self.nodes[i])@ == (
                    if on_path(onodes, start as int, i) {
                        onodes[i]@.spec_update_complete(
                            task_idx,
                            arriving(onodes, og, task_idx, accu_reward as int, start as int, i),
                            og,
                        ).0
                    } else {
                        onodes[i]@
                    }),
            decreases curr,
        {
            let ghost pre = *self;
            let mut n = self.nodes.remove(curr);
            let g = self.gamma;
            let out = n.update_complete(task_idx, rolling, &g);
            self.nodes.insert(curr, n);
            proof {
                assert(self.nodes@ =~= pre.nodes@.update(curr as int, self.nodes@[curr as int]));
                assert(pre.nodes[curr as int]@ == onodes[curr as int]@);
                self.lemma_wf_after_node_update(pre, curr as int);
            }
            match self.nodes[curr].parent {
                None => {
                    proof {
                        assert(onodes[curr as int]@.parent is None);
                        assert forall|i: int| 0 <= i < old(self).nodes.len() implies (
                        #[trigger] self.nodes[i])@ == (if on_path(onodes, start as int, i) {
                            onodes[i]@.spec_update_complete(
                                task_idx,
                                arriving(
                                    onodes,
                                    og,
                                    task_idx,
                                    accu_reward as int,
                                    start as int,
                                    i,
                                ),
                                og,
                            ).0
                        } else {
                            onodes[i]@
                        }) by {
                            if i != curr as int {
                                assert(!on_path(onodes, curr as int, i));
                            }
                        }
                    }
                    break ;
                },
                Some(p) => {
                    proof {
                        assert(onodes[curr as int]@.parent == Some(p));
                        assert(p < curr);
                        lemma_on_path_extend(onodes, start as int, curr as int, p);
                        lemma_arriving_step(
                            onodes,
                            og,
                            task_idx,
                            accu_reward as int,
                            start as int,
                            curr as int,
                            p,
                        );
                        assert forall|i: int| 0 <= i < old(self).nodes.len() implies (
                        #[trigger] self.nodes[i])@ == (if on_path(onodes, start as int, i)
                            && !on_path(onodes, p as int, i) {
                            onodes[i]@.spec_update_complete(
                                task_idx,
                                arriving(
                                    onodes,
                                    og,
                                    task_idx,
                                    accu_reward as int,
                                    start as int,
                                    i,
                                ),
                                og,
                            ).0
                        } else {
                            onodes[i]@
                        }) by {
                            if i == curr as int {
                                if on_path(onodes, p as int, i) {
                                    lemma_on_path_le(onodes, p as int, i);
                                }
                            } else {
                                assert(on_path(onodes, curr as int, i) == on_path(
                                    onodes,
                                    p as int,
                                    i,
                                ));
                            }
                        }
                    }
                    rolling = out;
                    curr = p;
                },
            }
        }
    }

    /// Replacing one node by a well-formed node of the same shape keeps the
    /// whole tree well formed.
    proof fn lemma_wf_after_node_update(&self, pre: Tree<E>, at: int)
        requires
            pre.wf(),
            0 <= at < pre.nodes.len(),
            self.nodes@ == pre.nodes@.update(at, self.nodes@[at]),
            self.nodes@[at]@.wf(),
            same_shape(self.nodes@[at]@, pre.nodes@[at]@),
            self.budget == pre.budget,
            self.gamma == pre.gamma,
            self.exp_pool == pre.exp_pool,
            self.sim_pool == pre.sim_pool,
            self.ckpts == pre.ckpts,
            self.expansion_tasks == pre.expansion_tasks,
            self.expansion_nodes_copy == pre.expansion_nodes_copy,
            self.simulation_tasks == pre.simulation_tasks,
            self.simulation_nodes_copy == pre.simulation_nodes_copy,
        ensures
            self.wf(),
    {
        assert(self.anchor() == pre.anchor());
        assert forall|i: int| 0 <= i < self.nodes.len() implies {
            let n = (#[trigger] self.nodes[i])@;
            &&& n.wf()
            &&& (n.is_head <==> i == 0)
            &&& (n.parent is None <==> i == 0)
            &&& (n.parent is Some ==> n.parent.unwrap() < i)
            &&& forall|a: int|
                0 <= a < n.action_count && (#[trigger] n.children[a]) is Some ==> i
                    < n.children[a].unwrap() < self.nodes.len()
            &&& n.action_count == self.space()
        } by {
            if i != at {
                assert(self.nodes[i] == pre.nodes[i]);
            }
            assert(pre.nodes[i]@.wf());
        }
    }

    /// A reply waiting in the expansion pool: always an expansion result,
    /// whose fresh checkpoint (when present) the anchor system can restore.
    pub open spec fn exp_reply_ok(&self, rep: Reply<E::Snap>) -> bool {
        match rep {
            Reply::DoneExpansion { action, new_checkpoint, saving_idx, .. } => {
                &&& action < self.space()
                &&& (new_checkpoint is Some ==> self.anchor().snap_wf(new_checkpoint.unwrap()))
                &&& saving_idx >= 1
            },
            Reply::DoneSimulation { .. } => false,
        }
    }

    /// Everything queued in the expansion pool is a well-formed expansion
    /// reply.
    pub open spec fn exp_replies_ok(&self) -> bool {
        forall|k: int|
            0 <= k < self.exp_pool.completed.len() ==> self.exp_reply_ok(
                #[trigger] self.exp_pool.completed[k],
            )
    }

    /// Everything queued in the simulation pool is a rollout result.
    pub open spec fn sim_replies_ok(&self) -> bool {
        forall|k: int|
            0 <= k < self.sim_pool.completed.len() ==> (#[trigger] self.sim_pool.completed[k])
                is DoneSimulation
    }

    /// The conservation account of one planning call: rounds resolved plus
    /// work still owed — tasks in flight in either pool and tasks waiting
    /// in either queue.  Every simulation round moves exactly one unit into
    /// this account, and resolving a task moves its unit into
    /// `simulation_count`; a task consumed on a defensive path (a slot
    /// already cleared) completes its round's accounting the same way.
    pub open spec fn outstanding(&self) -> int {
        self.simulation_count as int + self.exp_pool.busy_count() + self.sim_pool.busy_count()
            + self.pending_expansion_tasks.len() + self.pending_simulation_tasks.len()
    }

    /// Re-establish well-formedness after the pools have run tasks: worker
    /// systems are preserved, so everything the anchor vouched for still
    /// holds.
    proof fn lemma_wf_after_pools(&self, pre: Tree<E>)
        requires
            pre.wf(),
            self.exp_pool.wf(),
            self.sim_pool.wf(),
            self.exp_pool.num() == 1,
            self.exp_pool.rep().same_sys(&pre.exp_pool.rep()),
            self.sim_pool.rep().same_sys(&pre.sim_pool.rep()),
            self.nodes == pre.nodes,
            self.ckpts == pre.ckpts,
            self.expansion_tasks == pre.expansion_tasks,
            self.expansion_nodes_copy == pre.expansion_nodes_copy,
            self.simulation_tasks == pre.simulation_tasks,
            self.simulation_nodes_copy == pre.simulation_nodes_copy,
            self.gamma == pre.gamma,
        ensures
            self.wf(),
            self.space() == pre.space(),
            self.anchor().same_sys(&pre.anchor()),
            forall|s: E::Snap| #[trigger] self.anchor().snap_wf(s) == pre.anchor().snap_wf(s),
    {
        lemma_sys_action_space(&self.anchor(), &pre.anchor());
        assert forall|s: E::Snap| #[trigger] self.anchor().snap_wf(s) == pre.anchor().snap_wf(
            s,
        ) by {
            lemma_sys_snap_wf(&self.anchor(), &pre.anchor(), s);
        }
        lemma_sys_sym(&self.exp_pool.rep(), &pre.exp_pool.rep());
        lemma_sys_trans(&self.sim_pool.rep(), &pre.sim_pool.rep(), &pre.exp_pool.rep());
        lemma_sys_sym(&self.exp_pool.rep(), &pre.exp_pool.rep());
        lemma_sys_sym(&pre.exp_pool.rep(), &self.exp_pool.rep());
        lemma_sys_trans(&self.sim_pool.rep(), &pre.exp_pool.rep(), &self.exp_pool.rep());
    }

    /// One simulation round: selection down the tree, scheduling and
    /// draining of the expansion pool, scheduling and draining of the
    /// simulation pool, with backpropagation for every completed task.
    /// Returns the depth the selection reached.
    ///
    /// Selection expands at the first node with no visited child, at the
    /// unsaturated root, or at an unsaturated inner node on the
    /// exploration coin, and otherwise follows the confidence bound until
    /// an action flagged terminal.  Every resolution is preceded by its
    /// virtual loss: the pending visit is registered along the node's path
    /// at dispatch (for rollouts) or just before the immediate resolution
    /// (for terminal expansions), and resolving removes the recorded
    /// in-flight entry again.  The contract pins the round's accounting:
    /// exactly one unit of work enters the conservation account
    /// (`outstanding`), whatever the coin and the workers returned.
    #[verifier::rlimit(100)]
    pub fn simulate_single_step(&mut self, sim_idx: u32) -> (depth: u32)
        requires
            old(self).wf(),
            old(self).nodes.len() >= 1,
            sim_idx < old(self).budget,
            (sim_idx as int) < old(self).expansion_tasks.len(),
            old(self).exp_pool.busy_count() == 0,
            old(self).sim_replies_ok(),
            old(self).global_saving_idx >= 1,
            old(self).outstanding() == sim_idx as int,
            old(self).pending_expansion_tasks.len() == 0,
        ensures
            final(self).outstanding() == sim_idx as int + 1,
            final(self).pending_expansion_tasks.len() == 0,
            sim_idx as int + 1 == old(self).budget ==> final(self).sim_pool.busy_count() == 0,
            depth >= 1,
            final(self).wf(),
            final(self).budget == old(self).budget,
            final(self).gamma == old(self).gamma,
            final(self).nodes.len() >= old(self).nodes.len(),
            final(self).expansion_tasks.len() == old(self).expansion_tasks.len(),
            final(self).simulation_tasks.len() == old(self).simulation_tasks.len(),
            final(self).anchor().same_sys(&old(self).anchor()),
            final(self).exp_pool.busy_count() == 0,
            final(self).global_saving_idx >= old(self).global_saving_idx,
            final(self).global_saving_idx <= old(self).global_saving_idx + 1,
            same_core(final(self).nodes[0]@, old(self).nodes[0]@),
            final(self).sim_replies_ok(),
            final(self).ckpts.len() >= old(self).ckpts.len(),
            old(self).ckpts.len() >= 1 ==> final(self).ckpts@[0] == old(self).ckpts@[0],
    {
        let ghost at_entry = *self;
        // Selection: descend from the root until a node needs expansion or
        // the chosen action is already flagged terminal.
        let mut curr: usize = 0;
        let mut curr_depth: u32 = 1;
        let mut need_expansion = false;
        loop
            invariant
                self.wf(),
                curr < self.nodes.len(),
                self.nodes.len() == at_entry.nodes.len(),
                same_core(self.nodes[0]@, at_entry.nodes[0]@),
                self.sim_replies_ok(),
                self.outstanding() == sim_idx as int,
                self.pending_expansion_tasks.len() == 0,
                curr_depth >= 1,
                self.budget == at_entry.budget,
                self.gamma == at_entry.gamma,
                self.exp_pool == at_entry.exp_pool,
                self.sim_pool == at_entry.sim_pool,
                self.ckpts == at_entry.ckpts,
                self.global_saving_idx == at_entry.global_saving_idx,
                self.simulation_count == at_entry.simulation_count,
                self.expansion_tasks == at_entry.expansion_tasks,
                self.expansion_nodes_copy == at_entry.expansion_nodes_copy,
                self.simulation_tasks == at_entry.simulation_tasks,
                self.simulation_nodes_copy == at_entry.simulation_nodes_copy,
                self.pending_expansion_tasks == at_entry.pending_expansion_tasks,
                self.pending_simulation_tasks == at_entry.pending_simulation_tasks,
            decreases self.nodes.len() - curr,
        {
            let no_child = self.nodes[curr].no_child_available();
            let is_head = self.nodes[curr].is_head;
            let all_visited = self.nodes[curr].all_child_visited();
            let coin = random_below(EXPANSION_PROB_DEN) < EXPANSION_PROB_NUM;
            if no_child || (is_head && !all_visited) || (!is_head && !all_visited && coin) {
                // No visited child, an unsaturated root, or an unsaturated
                // inner node with the exploration coin: expand here.
                need_expansion = true;
                break ;
            }
            let sel = self.nodes[curr].select_uct_action(false);
            let action = sel.0;
            let reward = self.nodes[curr].rewards[action];
            let ghost pre = *self;
            let mut n = self.nodes.remove(curr);
            n.update_history(sim_idx, action, reward);
            self.nodes.insert(curr, n);
            proof {
                assert(self.nodes@ =~= pre.nodes@.update(curr as int, self.nodes@[curr as int]));
                self.lemma_wf_after_node_update(pre, curr as int);
            }
            if self.nodes[curr].dones[action] {
                // The chosen action is terminal: no expansion this round.
                break ;
            }
            if curr_depth < u32::MAX {
                curr_depth = curr_depth + 1;
            }
            let child_opt = self.nodes[curr].children[action];
            match child_opt {
                Some(c) => {
                    if curr < c && c < self.nodes.len() {
                        curr = c;
                    } else {
                        break ;
                    }
                },
                None => {
                    break ;
                },
            }
        }
        // Record the expansion task for this round; a round whose
        // checkpoint is no longer on record (a defensive path) completes
        // its accounting as a resolved no-op instead.
        if need_expansion {
            let no_child = self.nodes[curr].no_child_available();
            let all_visited = self.nodes[curr].all_child_visited();
            if no_child || !all_visited {
                let ckidx = self.nodes[curr].checkpoint_idx as usize;
                if ckidx < self.ckpts.len() {
                    let ck_opt: Option<E::Snap> = match &self.ckpts[ckidx] {
                        Some(s) => Some(self.exp_pool.workers[0].clone_snap(s)),
                        None => None,
                    };
                    match ck_opt {
                        Some(ck) => {
                            let stub = self.nodes[curr].make_stub();
                            proof {
                                if no_child {
                                    assert(!self.nodes[curr as int]@.touched(0));
                                    assert(!stub.tried[0]);
                                } else {
                                    let w = choose|a: int|
                                        0 <= a < self.nodes[curr as int]@.action_count && !(
                                        #[trigger] self.nodes[curr as int]@.touched(a));
                                    assert(!stub.tried[w]);
                                }
                                assert(stub.has_untried());
                            }
                            let ghost pre = *self;
                            self.expansion_tasks.set(
                                sim_idx as usize,
                                Some(ExpTask { checkpoint_data: ck, shallow_copy_node: stub }),
                            );
                            self.expansion_nodes_copy.set(sim_idx as usize, Some(curr));
                            self.pending_expansion_tasks.push(sim_idx);
                            proof {
                                assert forall|i: int|
                                    0 <= i < self.expansion_tasks.len() && (
                                    #[trigger] self.expansion_tasks[i]) is Some implies {
                                    let t = self.expansion_tasks[i].unwrap();
                                    &&& self.anchor().snap_wf(t.checkpoint_data)
                                    &&& t.shallow_copy_node.wf()
                                    &&& t.shallow_copy_node.has_untried()
                                    &&& t.shallow_copy_node.action_count == self.space()
                                } by {
                                    if i != sim_idx as int {
                                        assert(self.expansion_tasks[i] == pre.expansion_tasks[i]);
                                    }
                                }
                                assert forall|i: int|
                                    0 <= i < self.expansion_nodes_copy.len() && (
                                    #[trigger] self.expansion_nodes_copy[i]) is Some implies
                                    self.expansion_nodes_copy[i].unwrap() < self.nodes.len() by {
                                    if i != sim_idx as int {
                                        assert(self.expansion_nodes_copy[i]
                                            == pre.expansion_nodes_copy[i]);
                                    }
                                }
                            }
                        },
                        None => {
                            self.simulation_count = self.simulation_count + 1;
                        },
                    }
                } else {
                    self.simulation_count = self.simulation_count + 1;
                }
            } else {
                self.simulation_count = self.simulation_count + 1;
            }
        }
        // Expansion: dispatch pending tasks while the single worker is
        // idle, then pull its result as soon as the pool is saturated.
        if need_expansion {
            loop
                invariant
                    self.wf(),
                    self.exp_replies_ok(),
                    self.budget == at_entry.budget,
                    self.gamma == at_entry.gamma,
                    self.nodes.len() == at_entry.nodes.len(),
                    same_core(self.nodes[0]@, at_entry.nodes[0]@),
                    self.sim_replies_ok(),
                    self.global_saving_idx >= at_entry.global_saving_idx,
                    self.global_saving_idx as int <= at_entry.global_saving_idx
                        + self.exp_pool.busy_count(),
                    self.global_saving_idx >= 1,
                    at_entry.global_saving_idx >= 1,
                    self.ckpts == at_entry.ckpts,
                    self.expansion_tasks.len() == at_entry.expansion_tasks.len(),
                    self.simulation_tasks.len() == at_entry.simulation_tasks.len(),
                    self.anchor().same_sys(&at_entry.anchor()),
                    self.exp_pool.num() == 1,
                    self.exp_pool.busy_count() <= 1,
                    self.outstanding() == sim_idx as int + 1,
                    self.pending_expansion_tasks.len() + self.exp_pool.busy_count() <= 1,
                    sim_idx < self.budget,
                    at_entry.nodes.len() >= 1,
                ensures
                    self.pending_expansion_tasks.len() == 0,
                decreases self.pending_expansion_tasks.len(),
            {
                if self.pending_expansion_tasks.len() == 0 {
                    break ;
                }
                if !self.exp_pool.has_idle_server() {
                    break ;
                }
                let task_idx = self.pending_expansion_tasks.remove(0);
                let ti = task_idx as usize;
                if ti < self.expansion_tasks.len() {
                    let ghost before = *self;
                    let slot = self.expansion_tasks.remove(ti);
                    self.expansion_tasks.insert(ti, None);
                    proof {
                        assert(self.expansion_tasks@ =~= before.expansion_tasks@.update(
                            ti as int,
                            None,
                        ));
                        assert forall|i: int|
                            0 <= i < self.expansion_tasks.len() && (
                            #[trigger] self.expansion_tasks[i]) is Some implies {
                            let t = self.expansion_tasks[i].unwrap();
                            &&& self.anchor().snap_wf(t.checkpoint_data)
                            &&& t.shallow_copy_node.wf()
                            &&& t.shallow_copy_node.has_untried()
                            &&& t.shallow_copy_node.action_count == self.space()
                        } by {
                            assert(self.expansion_tasks[i] == before.expansion_tasks[i]);
                        }
                    }
                    match slot {
                        Some(t) => {
                            let ghost gt = t;
                            let saving = self.global_saving_idx;
                            proof {
                                assert(before.expansion_tasks[ti as int] == Some(gt));
                                self.anchor().lemma_with_snap(gt.checkpoint_data);
                            }
                            let ghost pre2 = *self;
                            self.exp_pool.assign_expansion_task(t, saving, task_idx);
                            if self.global_saving_idx < u32::MAX {
                                self.global_saving_idx = self.global_saving_idx + 1;
                            }
                            proof {
                                self.lemma_wf_after_pools(pre2);
                                lemma_sys_trans(
                                    &self.anchor(),
                                    &pre2.anchor(),
                                    &at_entry.anchor(),
                                );
                                assert forall|k: int|
                                    0 <= k < self.exp_pool.completed.len() implies
                                    self.exp_reply_ok(#[trigger] self.exp_pool.completed[k]) by {
                                    if k < pre2.exp_pool.completed.len() {
                                        assert(self.exp_pool.completed[k]
                                            == pre2.exp_pool.completed[k]);
                                        assert(pre2.exp_reply_ok(self.exp_pool.completed[k]));
                                    } else {
                                        let rep = self.exp_pool.completed@.last();
                                        let e0 = pre2.exp_pool.rep().with_snap(gt.checkpoint_data);
                                        assert(crate::worker::is_exp_outcome(
                                            e0,
                                            gt.shallow_copy_node,
                                            saving,
                                            task_idx,
                                            rep,
                                        ));
                                        let a = choose|a: int|
                                            0 <= a < gt.shallow_copy_node.action_count && !(
                                            #[trigger] gt.shallow_copy_node.tried[a]) && rep
                                                == crate::worker::exp_outcome_at(
                                                e0,
                                                a,
                                                saving,
                                                task_idx,
                                            );
                                        pre2.anchor().lemma_with_snap(gt.checkpoint_data);
                                        if !e0.step_spec(a as usize).2 {
                                            assert(pre2.anchor().snap_wf(
                                                e0.step_spec(a as usize).0.snap(),
                                            ));
                                        }
                                    }
                                }
                            }
                        },
                        None => {
                            self.simulation_count = self.simulation_count + 1;
                        },
                    }
                } else {
                    self.simulation_count = self.simulation_count + 1;
                }
            }
            // Pull the completed expansion only when the sole worker is
            // busy, so the pipeline stays full.
            if self.exp_pool.fully_busy() {
                let ghost pre_get = *self;
                let reply = self.exp_pool.get_complete_task();
                let ghost pre = *self;
                proof {
                    assert(pre_get.exp_reply_ok(reply));
                }
                match reply {
                    Reply::DoneExpansion {
                        action,
                        reward,
                        done,
                        child_saturated,
                        new_checkpoint,
                        saving_idx,
                        task_idx,
                    } => {
                        let ti = task_idx as usize;
                        if ti < self.expansion_nodes_copy.len() {
                            let nslot = self.expansion_nodes_copy.remove(ti);
                            self.expansion_nodes_copy.insert(ti, None);
                            proof {
                                assert(self.expansion_nodes_copy@ =~= pre.expansion_nodes_copy@
                                    .update(ti as int, None));
                                assert forall|i: int|
                                    0 <= i < self.expansion_nodes_copy.len() && (
                                    #[trigger] self.expansion_nodes_copy[i]) is Some implies
                                    self.expansion_nodes_copy[i].unwrap() < self.nodes.len() by {
                                    assert(self.expansion_nodes_copy[i]
                                        == pre.expansion_nodes_copy[i]);
                                }
                            }
                            match nslot {
                                Some(node_idx) => {
                                    if node_idx < self.nodes.len() && action
                                        < self.nodes[node_idx].action_count {
                                        let ghost pre3 = *self;
                                        let mut n = self.nodes.remove(node_idx);
                                        n.update_history(task_idx, action, reward);
                                        n.set_done(action, done);
                                        n.set_reward(action, reward);
                                        self.nodes.insert(node_idx, n);
                                        proof {
                                            assert(self.nodes@ =~= pre3.nodes@.update(
                                                node_idx as int,
                                                self.nodes@[node_idx as int],
                                            ));
                                            self.lemma_wf_after_node_update(pre3, node_idx as int);
                                        }
                                        if done {
                                            // Terminal expansion: materialize
                                            // the child and resolve at once.
                                            self.add_child_node(node_idx, action, saving_idx);
                                            self.incomplete_update(node_idx, task_idx);
                                            self.complete_update(node_idx, task_idx, 0);
                                            self.simulation_count = self.simulation_count + 1;
                                        } else {
                                            match new_checkpoint {
                                                Some(ck) => {
                                                    if ti < self.simulation_tasks.len() {
                                                        let ck2 = self.exp_pool.workers[0]
                                                            .clone_snap(&ck);
                                                        self.store_ckpt(saving_idx, ck);
                                                        let ghost pre4 = *self;
                                                        self.simulation_tasks.set(
                                                            ti,
                                                            Some(
                                                                SimTask {
                                                                    checkpoint_data: ck2,
                                                                    action,
                                                                    saving_idx,
                                                                    action_applied: true,
                                                                    child_saturated,
                                                                },
                                                            ),
                                                        );
                                                        self.simulation_nodes_copy.set(
                                                            ti,
                                                            Some(node_idx),
                                                        );
                                                        self.pending_simulation_tasks.push(
                                                            task_idx,
                                                        );
                                                        proof {
                                                            assert forall|i: int|
                                                                0 <= i
                                                                    < self.simulation_tasks.len()
                                                                    && (
                                                                #[trigger] self.simulation_tasks[i])
                                                                    is Some implies
                                                                self.anchor().snap_wf(
                                                                self.simulation_tasks[i].unwrap()
                                                                    .checkpoint_data,
                                                            ) by {
                                                                if i != ti as int {
                                                                    assert(self.simulation_tasks[i]
                                                                        == pre4.simulation_tasks[i]);
                                                                }
                                                            }
                                                            assert forall|i: int|
                                                                0 <= i
                                                                    < self.simulation_nodes_copy.len()
                                                                    && (
                                                                #[trigger] self.simulation_nodes_copy[i])
                                                                    is Some implies
                                                                self.simulation_nodes_copy[i].unwrap()
                                                                    < self.nodes.len() by {
                                                                if i != ti as int {
                                                                    assert(
                                                                        self.simulation_nodes_copy[i]
                                                                            == pre4.simulation_nodes_copy[i]);
                                                                }
                                                            }
                                                        }
                                                    } else {
                                                        self.simulation_count =
                                                            self.simulation_count + 1;
                                                    }
                                                },
                                                None => {
                                                    self.simulation_count = self.simulation_count
                                                        + 1;
                                                },
                                            }
                                        }
                                    } else {
                                        self.simulation_count = self.simulation_count + 1;
                                    }
                                },
                                None => {
                                    self.simulation_count = self.simulation_count + 1;
                                },
                            }
                        } else {
                            self.simulation_count = self.simulation_count + 1;
                        }
                    },
                    Reply::DoneSimulation { .. } => {
                        proof {
                            // The expansion pool only ever yields expansion
                            // results.
                            assert(false);
                        }
                    },
                }
            }
        } else {
            // The selection reached a terminal action: resolve the round
            // directly, with no additional reward.
            self.incomplete_update(curr, sim_idx);
            self.complete_update(curr, sim_idx, 0);
            self.simulation_count = self.simulation_count + 1;
        }
        // Simulation: dispatch pending rollouts to idle workers, issuing
        // the virtual loss as each goes out.
        loop
            invariant
                self.wf(),
                self.budget == at_entry.budget,
                self.gamma == at_entry.gamma,
                self.nodes.len() >= at_entry.nodes.len(),
                at_entry.nodes.len() >= 1,
                same_core(self.nodes[0]@, at_entry.nodes[0]@),
                self.sim_replies_ok(),
                self.outstanding() == sim_idx as int + 1,
                self.pending_expansion_tasks.len() == 0,
                self.global_saving_idx >= at_entry.global_saving_idx,
                self.global_saving_idx as int <= at_entry.global_saving_idx + 1,
                self.ckpts.len() >= at_entry.ckpts.len(),
                at_entry.ckpts.len() >= 1 ==> self.ckpts@[0] == at_entry.ckpts@[0],
                self.expansion_tasks.len() == at_entry.expansion_tasks.len(),
                self.simulation_tasks.len() == at_entry.simulation_tasks.len(),
                self.anchor().same_sys(&at_entry.anchor()),
                self.exp_pool.busy_count() == 0,
                sim_idx < self.budget,
            decreases self.pending_simulation_tasks.len(),
        {
            if self.pending_simulation_tasks.len() == 0 {
                break ;
            }
            if !self.sim_pool.has_idle_server() {
                break ;
            }
            let ghost pre = *self;
            self.dispatch_one_simulation();
            proof {
                lemma_sys_trans(&self.anchor(), &pre.anchor(), &at_entry.anchor());
            }
        }
        // Drain: pull completed rollouts while the pool is above its
        // watermark, or unconditionally on the last round of the budget so
        // no task is left unresolved.
        loop
            invariant
                self.wf(),
                self.budget == at_entry.budget,
                self.gamma == at_entry.gamma,
                self.nodes.len() >= at_entry.nodes.len(),
                at_entry.nodes.len() >= 1,
                same_core(self.nodes[0]@, at_entry.nodes[0]@),
                self.sim_replies_ok(),
                self.outstanding() == sim_idx as int + 1,
                self.pending_expansion_tasks.len() == 0,
                self.global_saving_idx >= at_entry.global_saving_idx,
                self.global_saving_idx as int <= at_entry.global_saving_idx + 1,
                self.ckpts.len() >= at_entry.ckpts.len(),
                at_entry.ckpts.len() >= 1 ==> self.ckpts@[0] == at_entry.ckpts@[0],
                self.expansion_tasks.len() == at_entry.expansion_tasks.len(),
                self.simulation_tasks.len() == at_entry.simulation_tasks.len(),
                self.anchor().same_sys(&at_entry.anchor()),
                self.exp_pool.busy_count() == 0,
                sim_idx < self.budget,
            ensures
                sim_idx as int + 1 < self.budget || self.sim_pool.busy_count() == 0,
            decreases self.sim_pool.busy_count(),
        {
            if !self.sim_pool.any_busy() {
                break ;
            }
            let above = self.sim_pool.above_half();
            let last_round = self.budget == sim_idx + 1 && self.simulation_count != self.budget;
            if !(above || last_round) {
                break ;
            }
            let ghost pre_collect = *self;
            proof {
                assert(self.simulation_count < u32::MAX);
            }
            self.collect_one_simulation();
            proof {
                assert(pre_collect.nodes.len() >= 1);
                assert(same_core(self.nodes[0]@, pre_collect.nodes[0]@));
                assert(same_core(self.nodes[0]@, at_entry.nodes[0]@));
            }
        }
        curr_depth
    }

    /// Hand the next pending rollout to an idle simulation worker, issuing
    /// the virtual loss along its node's path as it goes out; a queue entry
    /// whose task slot was already cleared (a defensive path) completes
    /// its round's accounting as a resolved no-op instead.
    fn dispatch_one_simulation(&mut self)
        requires
            old(self).wf(),
            old(self).pending_simulation_tasks.len() > 0,
            old(self).sim_pool.busy_count() < old(self).sim_pool.num(),
            old(self).sim_replies_ok(),
            old(self).simulation_count < u32::MAX,
        ensures
            final(self).wf(),
            final(self).sim_replies_ok(),
            final(self).pending_simulation_tasks.len() == old(self).pending_simulation_tasks.len()
                - 1,
            final(self).outstanding() == old(self).outstanding(),
            final(self).sim_pool.busy_count() <= old(self).sim_pool.busy_count() + 1,
            final(self).simulation_count >= old(self).simulation_count,
            final(self).exp_pool == old(self).exp_pool,
            final(self).anchor() == old(self).anchor(),
            final(self).budget == old(self).budget,
            final(self).gamma == old(self).gamma,
            final(self).nodes.len() == old(self).nodes.len(),
            old(self).nodes.len() >= 1 ==> same_core(final(self).nodes[0]@, old(self).nodes[0]@),
            final(self).global_saving_idx == old(self).global_saving_idx,
            final(self).ckpts == old(self).ckpts,
            final(self).expansion_tasks == old(self).expansion_tasks,
            final(self).expansion_nodes_copy == old(self).expansion_nodes_copy,
            final(self).simulation_tasks.len() == old(self).simulation_tasks.len(),
            final(self).pending_expansion_tasks == old(self).pending_expansion_tasks,
    {
        let task_idx = self.pending_simulation_tasks.remove(0);
        let ti = task_idx as usize;
        if ti < self.simulation_tasks.len() {
            let t_opt: Option<SimTask<E::Snap>> = match &self.simulation_tasks[ti] {
                Some(t) => Some(
                    SimTask {
                        checkpoint_data: self.exp_pool.workers[0].clone_snap(&t.checkpoint_data),
                        action: t.action,
                        saving_idx: t.saving_idx,
                        action_applied: t.action_applied,
                        child_saturated: t.child_saturated,
                    },
                ),
                None => None,
            };
            match t_opt {
                Some(t) => {
                    proof {
                        lemma_sys_snap_wf(&self.sim_pool.rep(), &self.anchor(), t.checkpoint_data);
                    }
                    let ghost pre = *self;
                    self.sim_pool.assign_simulation_task(t, task_idx);
                    proof {
                        self.lemma_wf_after_pools(pre);
                    }
                    let nslot = self.simulation_nodes_copy[ti];
                    match nslot {
                        Some(nidx) => {
                            if nidx < self.nodes.len() {
                                self.incomplete_update(nidx, task_idx);
                            }
                        },
                        None => {},
                    }
                },
                None => {
                    self.simulation_count = self.simulation_count + 1;
                },
            }
        } else {
            self.simulation_count = self.simulation_count + 1;
        }
    }

    /// Collect one finished rollout and resolve it into the tree: take the
    /// task and its node out of the in-flight tables, materialize the
    /// child, and backpropagate the accumulated reward from that node up
    /// to the root.
    fn collect_one_simulation(&mut self)
        requires
            old(self).wf(),
            old(self).sim_pool.busy_count() > 0,
            old(self).sim_replies_ok(),
            old(self).simulation_count < u32::MAX,
        ensures
            final(self).wf(),
            final(self).sim_replies_ok(),
            final(self).sim_pool.busy_count() == old(self).sim_pool.busy_count() - 1,
            final(self).simulation_count == old(self).simulation_count + 1,
            final(self).outstanding() == old(self).outstanding(),
            final(self).pending_expansion_tasks == old(self).pending_expansion_tasks,
            final(self).pending_simulation_tasks == old(self).pending_simulation_tasks,
            final(self).budget == old(self).budget,
            final(self).gamma == old(self).gamma,
            final(self).nodes.len() >= old(self).nodes.len(),
            old(self).nodes.len() >= 1 ==> same_core(final(self).nodes[0]@, old(self).nodes[0]@),
            final(self).global_saving_idx == old(self).global_saving_idx,
            final(self).expansion_tasks.len() == old(self).expansion_tasks.len(),
            final(self).simulation_tasks.len() == old(self).simulation_tasks.len(),
            final(self).exp_pool == old(self).exp_pool,
            final(self).anchor() == old(self).anchor(),
            final(self).ckpts == old(self).ckpts,
    {
        let ghost pre_get = *self;
        let reply = self.sim_pool.get_complete_task();
        proof {
            assert(pre_get.sim_pool.completed[0] is DoneSimulation);
            assert forall|k: int| 0 <= k < self.sim_pool.completed.len() implies (
            #[trigger] self.sim_pool.completed[k]) is DoneSimulation by {
                assert(self.sim_pool.completed[k] == pre_get.sim_pool.completed[k + 1]);
            }
        }
        match reply {
            Reply::DoneSimulation { task_idx, accu_reward } => {
                self.simulation_count = self.simulation_count + 1;
                let ti = task_idx as usize;
                if ti < self.simulation_tasks.len() {
                    let ghost pre = *self;
                    let tslot = self.simulation_tasks.remove(ti);
                    self.simulation_tasks.insert(ti, None);
                    let nslot = self.simulation_nodes_copy.remove(ti);
                    self.simulation_nodes_copy.insert(ti, None);
                    proof {
                        assert(self.simulation_tasks@ =~= pre.simulation_tasks@.update(
                            ti as int,
                            None,
                        ));
                        assert(self.simulation_nodes_copy@ =~= pre.simulation_nodes_copy@.update(
                            ti as int,
                            None,
                        ));
                        assert forall|i: int|
                            0 <= i < self.simulation_tasks.len() && (
                            #[trigger] self.simulation_tasks[i]) is Some implies
                            self.anchor().snap_wf(
                            self.simulation_tasks[i].unwrap().checkpoint_data,
                        ) by {
                            assert(self.simulation_tasks[i] == pre.simulation_tasks[i]);
                        }
                        assert forall|i: int|
                            0 <= i < self.simulation_nodes_copy.len() && (
                            #[trigger] self.simulation_nodes_copy[i]) is Some implies
                            self.simulation_nodes_copy[i].unwrap() < self.nodes.len() by {
                            assert(self.simulation_nodes_copy[i] == pre.simulation_nodes_copy[i]);
                        }
                    }
                    match (tslot, nslot) {
                        (Some(t), Some(nidx)) => {
                            if nidx < self.nodes.len() && t.action
                                < self.nodes[nidx].action_count {
                                self.add_child_node(nidx, t.action, t.saving_idx);
                                self.complete_update(nidx, task_idx, accu_reward);
                            }
                        },
                        _ => {},
                    }
                }
            },
            Reply::DoneExpansion { .. } => {
                proof {
                    // The simulation pool only ever yields rollout results.
                    assert(false);
                }
            },
        }
    }

    /// Materialize the child of `parent` for `action`, if it does not
    /// exist yet, pointing it at checkpoint `saving_idx`.
    fn add_child_node(&mut self, parent: usize, action: usize, saving_idx: u32)
        requires
            old(self).wf(),
            parent < old(self).nodes.len(),
            action < old(self).nodes[parent as int].action_count,
        ensures
            final(self).wf(),
            final(self).nodes.len() >= old(self).nodes.len(),
            forall|i: int|
                0 <= i < old(self).nodes.len() ==> same_core(
                    (#[trigger] final(self).nodes[i])@,
                    old(self).nodes[i]@,
                ),
            final(self).budget == old(self).budget,
            final(self).gamma == old(self).gamma,
            final(self).exp_pool == old(self).exp_pool,
            final(self).sim_pool == old(self).sim_pool,
            final(self).ckpts == old(self).ckpts,
            final(self).global_saving_idx == old(self).global_saving_idx,
            final(self).simulation_count == old(self).simulation_count,
            final(self).expansion_tasks == old(self).expansion_tasks,
            final(self).expansion_nodes_copy == old(self).expansion_nodes_copy,
            final(self).simulation_tasks == old(self).simulation_tasks,
            final(self).simulation_nodes_copy == old(self).simulation_nodes_copy,
            final(self).pending_expansion_tasks == old(self).pending_expansion_tasks,
            final(self).pending_simulation_tasks == old(self).pending_simulation_tasks,
    {
        let already = match self.nodes[parent].children[action] {
            Some(_) => true,
            None => false,
        };
        if already {
            return ;
        }
        if self.nodes.len() == usize::MAX {
            return ;
        }
        let ac = self.nodes[parent].action_count;
        let child = Node::new(ac, saving_idx, false, Some(parent));
        let cidx = self.nodes.len();
        let ghost pre = *self;
        self.nodes.push(child);
        let mut n = self.nodes.remove(parent);
        n.set_child(action, cidx);
        self.nodes.insert(parent, n);
        proof {
            let mid = pre.nodes@.push(child);
            assert(self.nodes@ =~= mid.update(parent as int, self.nodes@[parent as int]));
            assert forall|i: int| 0 <= i < self.nodes.len() implies {
                let n2 = (#[trigger] self.nodes[i])@;
                &&& n2.wf()
                &&& (n2.is_head <==> i == 0)
                &&& (n2.parent is None <==> i == 0)
                &&& (n2.parent is Some ==> n2.parent.unwrap() < i)
                &&& forall|a: int|
                    0 <= a < n2.action_count && (#[trigger] n2.children[a]) is Some ==> i
                        < n2.children[a].unwrap() < self.nodes.len()
                &&& n2.action_count == self.space()
            } by {
                if i < pre.nodes.len() && i != parent {
                    assert(self.nodes[i] == pre.nodes[i]);
                    assert(pre.nodes[i]@.wf());
                } else if i == parent {
                    let n2 = self.nodes[i]@;
                    let po = pre.nodes[i]@;
                    assert(po.wf());
                    assert forall|a: int|
                        0 <= a < n2.action_count && (#[trigger] n2.children[a]) is Some implies i
                            < n2.children[a].unwrap() < self.nodes.len() by {
                        if a != action {
                            assert(n2.children[a] == po.children[a]);
                        }
                    }
                } else {
                    assert(i == cidx);
                }
            }
        }
    }

    /// Store a checkpoint at `saving_idx`, growing the table as needed.
    fn store_ckpt(&mut self, saving_idx: u32, ck: E::Snap)
        requires
            old(self).wf(),
            old(self).anchor().snap_wf(ck),
        ensures
            final(self).wf(),
            final(self).ckpts.len() >= old(self).ckpts.len(),
            forall|j: int|
                0 <= j < old(self).ckpts.len() && j != saving_idx ==> #[trigger] final(self).ckpts@[j]
                    == old(self).ckpts@[j],
            final(self).budget == old(self).budget,
            final(self).gamma == old(self).gamma,
            final(self).exp_pool == old(self).exp_pool,
            final(self).sim_pool == old(self).sim_pool,
            final(self).nodes == old(self).nodes,
            final(self).global_saving_idx == old(self).global_saving_idx,
            final(self).simulation_count == old(self).simulation_count,
            final(self).expansion_tasks == old(self).expansion_tasks,
            final(self).expansion_nodes_copy == old(self).expansion_nodes_copy,
            final(self).simulation_tasks == old(self).simulation_tasks,
            final(self).simulation_nodes_copy == old(self).simulation_nodes_copy,
            final(self).pending_expansion_tasks == old(self).pending_expansion_tasks,
            final(self).pending_simulation_tasks == old(self).pending_simulation_tasks,
    {
        let si = saving_idx as usize;
        while self.ckpts.len() <= si
            invariant
                self.wf(),
                si <= u32::MAX,
                self.ckpts.len() >= old(self).ckpts.len(),
                forall|j: int|
                    0 <= j < old(self).ckpts.len() ==> #[trigger] self.ckpts@[j] == old(
                        self,
                    ).ckpts@[j],
                self.budget == old(self).budget,
                self.gamma == old(self).gamma,
                self.exp_pool == old(self).exp_pool,
                self.sim_pool == old(self).sim_pool,
                self.nodes == old(self).nodes,
                self.global_saving_idx == old(self).global_saving_idx,
                self.simulation_count == old(self).simulation_count,
                self.expansion_tasks == old(self).expansion_tasks,
                self.expansion_nodes_copy == old(self).expansion_nodes_copy,
                self.simulation_tasks == old(self).simulation_tasks,
                self.simulation_nodes_copy == old(self).simulation_nodes_copy,
                self.pending_expansion_tasks == old(self).pending_expansion_tasks,
                self.pending_simulation_tasks == old(self).pending_simulation_tasks,
            decreases si + 1 - self.ckpts.len(),
        {
            let ghost pre = *self;
            self.ckpts.push(None);
            proof {
                assert forall|i: int|
                    0 <= i < self.ckpts.len() && (#[trigger] self.ckpts[i]) is Some implies
                    self.anchor().snap_wf(self.ckpts[i].unwrap()) by {
                    if i < pre.ckpts.len() {
                        assert(self.ckpts[i] == pre.ckpts[i]);
                    }
                }
            }
        }
        let ghost pre = *self;
        self.ckpts.set(si, Some(ck));
        proof {
            assert forall|i: int|
                0 <= i < self.ckpts.len() && (#[trigger] self.ckpts[i]) is Some implies
                self.anchor().snap_wf(self.ckpts[i].unwrap()) by {
                if i != si as int {
                    assert(self.ckpts[i] == pre.ckpts[i]);
                }
            }
            assert forall|j: int|
                0 <= j < old(self).ckpts.len() && j != saving_idx implies #[trigger] self.ckpts@[j]
                    == old(self).ckpts@[j] by {
                assert(self.ckpts@[j] == pre.ckpts@[j]);
            }
        }
    }

    /// The stopping rule of the outer environment-stepping loop: stop when
    /// the environment reports done, the best cost drops below the
    /// threshold, the iteration limit is reached, or the combined score of
    /// the last two planning rounds falls below two whole units (the
    /// plateau detector).
    pub fn should_stop(
        done: bool,
        best_cost: u32,
        cost_threshold: u32,
        iter: usize,
        iter_limit: usize,
        this_score: i64,
        last_score: i64,
    ) -> (r: bool)
        ensures
            r == (done || best_cost < cost_threshold || iter >= iter_limit || sat_add(
                this_score as int,
                last_score as int,
            ) < 2 * MILLI),
    {
        done || best_cost < cost_threshold || iter >= iter_limit || sat_add_i64(
            this_score,
            last_score,
        ) < 2 * MILLI
    }

    /// One planning call: checkpoint the live environment as the root,
    /// run exactly `budget` simulation rounds, and commit the best root
    /// action.  With an action space of one (only the stop action) the
    /// planner returns action zero with a fixed score at once, touching
    /// neither worker pool.
    pub fn plan(&mut self, env: &E) -> (r: (usize, i64))
        requires
            old(self).wf(),
            env.wf(),
            env.same_sys(&old(self).anchor()),
        ensures
            final(self).wf(),
            r.0 < env.action_space(),
            final(self).anchor().same_sys(&old(self).anchor()),
            final(self).budget == old(self).budget,
            final(self).gamma == old(self).gamma,
            env.action_space() == 1 ==> r == (0usize, (10 * MILLI) as i64) && *final(self)
                == *old(self),
            env.action_space() > 1 ==> ({
                let root = final(self).nodes[0]@;
                final(self).nodes.len() >= 1 && (forall|b: int|
                    0 <= b < root.action_count ==> !(#[trigger] root.final_better(
                        b,
                        r.0 as int,
                    ))) && r.1 as int == root.final_score(r.0 as int)
            }),
            env.action_space() > 1 ==> ({
                let root = final(self).nodes[0]@;
                &&& root.is_head
                &&& root.checkpoint_idx == 0
                &&& root.action_count == env.action_space()
                &&& final(self).global_saving_idx >= 1
            }),
            env.action_space() > 1 ==> ({
                &&& final(self).exp_pool.busy_count() == 0
                &&& final(self).sim_pool.busy_count() == 0
            }),
            env.action_space() > 1 ==> ({
                &&& final(self).ckpts.len() >= 1
                &&& final(self).ckpts@[0] == Some(env.snap())
            }),
            env.action_space() > 1 ==> ({
                &&& final(self).simulation_count == old(self).budget
                &&& final(self).pending_simulation_tasks.len() == 0
                &&& final(self).pending_expansion_tasks.len() == 0
            }),
    {
        let action_n = env.get_action_space();
        if action_n == 1 {
            proof {
                old(self).anchor().lemma_canon();
            }
            return (0, 10 * MILLI);
        }
        // Clear every per-call table and let both pools drain.
        self.global_saving_idx = 0;
        self.simulation_count = 0;
        self.ckpts.clear();
        self.nodes.clear();
        self.expansion_tasks.clear();
        self.expansion_nodes_copy.clear();
        self.simulation_tasks.clear();
        self.simulation_nodes_copy.clear();
        self.pending_expansion_tasks.clear();
        self.pending_simulation_tasks.clear();
        self.exp_pool.wait_until_all_idle();
        self.sim_pool.wait_until_all_idle();
        // One slot per round of the budget in each task table.
        let b = self.budget as usize;
        let mut i: usize = 0;
        while i < b
            invariant
                self.wf(),
                i <= b,
                b == self.budget as int,
                self.budget == old(self).budget,
                self.gamma == old(self).gamma,
                self.anchor() == old(self).anchor(),
                self.nodes.len() == 0,
                self.ckpts.len() == 0,
                self.exp_pool.busy_count() == 0,
                self.sim_pool.busy_count() == 0,
                self.sim_pool.completed@.len() == 0,
                self.simulation_count == 0,
                self.pending_expansion_tasks.len() == 0,
                self.pending_simulation_tasks.len() == 0,
                self.expansion_tasks.len() == i,
                self.expansion_nodes_copy.len() == i,
                self.simulation_tasks.len() == i,
                self.simulation_nodes_copy.len() == i,
                forall|j: int|
                    0 <= j < i ==> (#[trigger] self.expansion_tasks[j]) is None,
                forall|j: int|
                    0 <= j < i ==> (#[trigger] self.simulation_tasks[j]) is None,
                forall|j: int|
                    0 <= j < i ==> (#[trigger] self.expansion_nodes_copy[j]) is None,
                forall|j: int|
                    0 <= j < i ==> (#[trigger] self.simulation_nodes_copy[j]) is None,
            decreases b - i,
        {
            self.expansion_tasks.push(None);
            self.expansion_nodes_copy.push(None);
            self.simulation_tasks.push(None);
            self.simulation_nodes_copy.push(None);
            i = i + 1;
        }
        // Checkpoint the current environment as index zero and build the
        // root node over it.
        let ck = env.checkpoint();
        proof {
            env.lemma_canon();
            lemma_sys_snap_wf(env, &self.anchor(), ck);
            lemma_sys_action_space(env, &self.anchor());
        }
        let ghost pre_seed = *self;
        self.ckpts.push(Some(ck));
        let root = Node::new(action_n, 0, true, None);
        self.nodes.push(root);
        self.global_saving_idx = 1;
        proof {
            assert(self.nodes.len() == 1);
            assert(self.nodes[0] == root);
            assert(arena_wf(self.nodes@));
        }
        // Run the budget of simulation rounds.
        let mut sim_idx: u32 = 0;
        let budget = self.budget;
        while sim_idx < budget
            invariant
                self.wf(),
                budget == self.budget,
                sim_idx <= budget,
                self.budget == old(self).budget,
                self.gamma == old(self).gamma,
                self.nodes.len() >= 1,
                self.nodes[0]@.is_head,
                self.nodes[0]@.checkpoint_idx == 0,
                self.nodes[0]@.action_count == action_n as int,
                self.global_saving_idx >= 1,
                self.sim_replies_ok(),
                self.ckpts.len() >= 1,
                self.ckpts@[0] == Some(env.snap()),
                self.outstanding() == sim_idx as int,
                self.pending_expansion_tasks.len() == 0,
                self.expansion_tasks.len() == budget as int,
                self.simulation_tasks.len() == budget as int,
                self.anchor().same_sys(&old(self).anchor()),
                self.exp_pool.busy_count() == 0,
            decreases budget - sim_idx,
        {
            let ghost pre = *self;
            let _depth = self.simulate_single_step(sim_idx);
            proof {
                lemma_sys_trans(&self.anchor(), &pre.anchor(), &old(self).anchor());
            }
            sim_idx = sim_idx + 1;
        }
        // Finalize: dispatch whatever rollouts are still queued and drain
        // the simulation pool completely, resolving every issued round,
        // before the root's action is committed.
        loop
            invariant
                self.wf(),
                self.nodes.len() >= 1,
                self.nodes[0]@.is_head,
                self.nodes[0]@.checkpoint_idx == 0,
                self.nodes[0]@.action_count == action_n as int,
                self.global_saving_idx >= 1,
                self.sim_replies_ok(),
                self.ckpts.len() >= 1,
                self.ckpts@[0] == Some(env.snap()),
                self.outstanding() == budget as int,
                self.pending_expansion_tasks.len() == 0,
                self.budget == old(self).budget,
                budget == self.budget,
                self.gamma == old(self).gamma,
                self.anchor().same_sys(&old(self).anchor()),
                self.exp_pool.busy_count() == 0,
            ensures
                self.sim_pool.busy_count() == 0,
                self.pending_simulation_tasks.len() == 0,
                self.simulation_count == budget,
                self.ckpts.len() >= 1,
                self.ckpts@[0] == Some(env.snap()),
            decreases 2 * self.pending_simulation_tasks.len() + self.sim_pool.busy_count(),
        {
            if self.pending_simulation_tasks.len() > 0 && self.sim_pool.has_idle_server() {
                let ghost pre_d = *self;
                proof {
                    assert(self.simulation_count < u32::MAX);
                }
                self.dispatch_one_simulation();
                proof {
                    assert(same_core(self.nodes[0]@, pre_d.nodes[0]@));
                    lemma_sys_trans(&self.anchor(), &pre_d.anchor(), &old(self).anchor());
                }
            } else if self.sim_pool.any_busy() {
                let ghost pre_collect = *self;
                proof {
                    assert(self.simulation_count < u32::MAX);
                }
                self.collect_one_simulation();
                proof {
                    assert(same_core(self.nodes[0]@, pre_collect.nodes[0]@));
                    lemma_sys_trans(&self.anchor(), &pre_collect.anchor(), &old(self).anchor());
                }
            } else {
                proof {
                    assert(self.sim_pool.busy_count() == 0);
                    self.sim_pool.rep().lemma_canon();
                    assert(self.sim_pool.num() >= 1);
                    assert(self.pending_simulation_tasks.len() == 0);
                    assert(self.simulation_count == budget);
                }
                break ;
            }
        }
        // Final action: the root's most visited action.
        let sel = self.nodes[0].select_uct_action(true);
        proof {
            lemma_sys_action_space(&self.anchor(), &old(self).anchor());
        }
        sel
    }

    /// Shut both pools down; nothing stays in flight.
    pub fn close(&mut self)
        requires
            old(self).wf(),
        ensures
            final(self).wf(),
            final(self).exp_pool.busy_count() == 0,
            final(self).sim_pool.busy_count() == 0,
    {
        self.exp_pool.close();
        self.sim_pool.close();
    }

    /// The outer environment-stepping loop: reset the environment, then
    /// repeatedly plan and commit the chosen action until the environment
    /// reports done, the best cost beats the threshold, the iteration
    /// limit is reached, or the search plateaus; finally close the pools.
    pub fn run_loop(&mut self, env: &mut E, cost_threshold: u32, iter_limit: usize) -> (r:
        RunResult)
        requires
            old(self).wf(),
            old(env).wf(),
            old(env).same_sys(&old(self).anchor()),
        ensures
            final(self).wf(),
            final(env).wf(),
            r.iterations >= 1,
            iter_limit >= 1 ==> r.iterations <= iter_limit,
            final(self).exp_pool.busy_count() == 0,
            final(self).sim_pool.busy_count() == 0,
            exists|acts: Seq<usize>|
                {
                    &&& acts.len() == r.iterations
                    &&& #[trigger] steps_valid(old(env).with_snap(old(env).reset_snap()), acts)
                    &&& *final(env) == steps_fold(
                        old(env).with_snap(old(env).reset_snap()),
                        acts,
                    )
                    &&& r.episode_reward as int == steps_reward_from(
                        old(env).with_snap(old(env).reset_snap()),
                        acts,
                        0,
                    )
                    &&& r.best_cost == steps_last_best(
                        old(env).with_snap(old(env).reset_snap()),
                        acts,
                        0u32,
                    )
                    &&& (r.iterations >= iter_limit || steps_last_done(
                        old(env).with_snap(old(env).reset_snap()),
                        acts,
                        false,
                    ) || steps_last_best(old(env).with_snap(old(env).reset_snap()), acts, 0u32)
                        < cost_threshold || sat_add(r.this_score as int, r.last_score as int) < 2
                        * MILLI)
                },
    {
        env.reset();
        proof {
            old(env).lemma_with_snap(old(env).reset_snap());
            lemma_sys_trans(env, old(env), &old(self).anchor());
        }
        let ghost e0 = *env;
        let ghost mut acts: Seq<usize> = Seq::empty();
        let mut iter: usize = 0;
        let mut episode_reward: i64 = 0;
        let mut this_score: i64 = 0;
        let mut last_score: i64 = 10 * MILLI;
        let mut last_done: bool = false;
        let mut best_cost: u32 = 0;
        loop
            invariant_except_break
                iter < iter_limit || iter == 0,
            invariant
                self.wf(),
                env.wf(),
                env.same_sys(&self.anchor()),
                e0 == old(env).with_snap(old(env).reset_snap()),
                acts.len() == iter,
                steps_valid(e0, acts),
                *env == steps_fold(e0, acts),
                episode_reward as int == steps_reward_from(e0, acts, 0),
                best_cost == steps_last_best(e0, acts, 0u32),
                last_done == steps_last_done(e0, acts, false),
            ensures
                iter >= 1,
                iter_limit >= 1 ==> iter <= iter_limit,
                self.wf(),
                env.wf(),
                acts.len() == iter,
                steps_valid(e0, acts),
                *env == steps_fold(e0, acts),
                episode_reward as int == steps_reward_from(e0, acts, 0),
                best_cost == steps_last_best(e0, acts, 0u32),
                iter >= iter_limit || steps_last_done(e0, acts, false) || steps_last_best(
                    e0,
                    acts,
                    0u32,
                ) < cost_threshold || sat_add(this_score as int, last_score as int) < 2 * MILLI,
            decreases iter_limit - iter,
        {
            let ghost pre = *self;
            let ghost env_pre = *env;
            let (action, score) = self.plan(env);
            this_score = score;
            proof {
                lemma_sys_sym(&self.anchor(), &pre.anchor());
                env.lemma_canon();
                lemma_sys_trans(env, &pre.anchor(), &self.anchor());
            }
            let ghost env_mid = *env;
            let (reward, done, info) = env.step(action);
            proof {
                lemma_sys_trans(env, &env_mid, &self.anchor());
                lemma_steps_push(e0, acts, action, 0, 0u32, false);
                acts = acts.push(action);
            }
            iter = iter + 1;
            episode_reward = sat_add_i64(episode_reward, reward);
            best_cost = info.best_cost;
            last_done = done;
            if Self::should_stop(
                done,
                info.best_cost,
                cost_threshold,
                iter,
                iter_limit,
                this_score,
                last_score,
            ) {
                break ;
            }
            last_score = this_score;
        }
        self.close();
        RunResult { iterations: iter, episode_reward, best_cost, this_score, last_score }
    }
}

/// What one optimization run reports: how many outer iterations ran, the
/// accumulated reward, the best cost reached, and the scores of the last
/// two planning rounds (fixed-point thousandths), against which the
/// plateau rule was judged.
#[derive(Clone, Copy, PartialEq, Eq, Structural, Debug)]
pub struct RunResult {
    pub iterations: usize,
    pub episode_reward: i64,
    pub best_cost: u32,
    pub this_score: i64,
    pub last_score: i64,
}

} // verus!
