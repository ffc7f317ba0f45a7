use rmcts::env::Env;
use rmcts::node::Node;
use rmcts::pool::PoolManager;
use rmcts::reward::{backup, discount, Gamma, MILLI};
use rmcts::run::{run_mcts, MCTSArgs};
use rmcts::sim_env::{Ckpt, EnvSystem, RewriteEnv, StateDesc};
use rmcts::task::{ExpTask, NodeStub};
use rmcts::tree::Tree;
use rmcts::worker::random_below;

fn one_rewrite_system() -> EnvSystem {
    // Three abstract graph states: the base graph (cost 100), the rewritten
    // graph (cost 1, a self-loop thereafter), and an unreachable detour.
    EnvSystem {
        states: vec![
            StateDesc { cost: 100, succs: vec![1] },
            StateDesc { cost: 1, succs: vec![1] },
            StateDesc { cost: 50, succs: vec![2] },
        ],
        num_rewrites: 1,
    }
}

fn stop_only_system() -> EnvSystem {
    EnvSystem { states: vec![StateDesc { cost: 7, succs: vec![] }], num_rewrites: 0 }
}

#[test]
fn discount_exact_values() {
    let g = Gamma::new(9, 10);
    assert_eq!(discount(100, &g), 90);
    assert_eq!(discount(-100, &g), -90);
    assert_eq!(discount(1, &g), 0);
    assert_eq!(discount(-7, &Gamma::new(1, 2)), -3);
    assert_eq!(discount(55, &Gamma::new(10, 10)), 55);
    assert_eq!(discount(0, &g), 0);
}

#[test]
fn discount_shrinks_magnitude() {
    let g = Gamma::new(9, 10);
    let mut r: i64 = 1_000_000;
    for _ in 0..50 {
        let next = discount(r, &g);
        assert!(next.abs() < r.abs() || r == 0);
        r = next;
    }
}

#[test]
fn backup_compounds_and_adds() {
    let g = Gamma::new(9, 10);
    assert_eq!(backup(100, &g, 7), 97);
    assert_eq!(backup(0, &g, -3), -3);
    assert_eq!(backup(i64::MAX, &g, i64::MAX), i64::MAX); // saturates
}

#[test]
fn node_conservation_of_visits() {
    let mut n = Node::new(3, 0, true, None);
    let g = Gamma::new(9, 10);
    n.update_history(1, 0, 5);
    n.update_history(2, 2, 8);
    n.update_incomplete(1);
    n.update_incomplete(2);
    assert_eq!(n.pending, vec![1, 0, 1]);
    let up1 = n.update_complete(1, 10, &g);
    assert_eq!(up1, 9 + 5); // 10 * 0.9 + immediate 5
    let up2 = n.update_complete(2, 20, &g);
    assert_eq!(up2, 18 + 8);
    // Conservation: resolved visits sum equals resolutions.
    let total: u32 = n.visits.iter().sum();
    assert_eq!(total, n.completed_count);
    assert_eq!(n.completed_count, 2);
    assert_eq!(n.pending, vec![0, 0, 0]);
    assert_eq!(n.reward_sums, vec![14, 0, 26]);
}

#[test]
fn backprop_order_does_not_change_statistics() {
    let g = Gamma::new(9, 10);
    let build = || {
        let mut n = Node::new(2, 0, true, None);
        n.update_history(1, 0, 5);
        n.update_history(2, 1, 8);
        n.update_incomplete(1);
        n.update_incomplete(2);
        n
    };
    let mut a = build();
    let mut b = build();
    let a1 = a.update_complete(1, 10, &g);
    let a2 = a.update_complete(2, 20, &g);
    let b2 = b.update_complete(2, 20, &g);
    let b1 = b.update_complete(1, 10, &g);
    assert_eq!(a1, b1);
    assert_eq!(a2, b2);
    assert_eq!(a.visits, b.visits);
    assert_eq!(a.pending, b.pending);
    assert_eq!(a.reward_sums, b.reward_sums);
    assert_eq!(a.completed_count, b.completed_count);
}

#[test]
fn final_selection_prefers_visits_then_reward_then_index() {
    let mut n = Node::new(3, 0, true, None);
    n.visits = vec![4, 6, 6];
    n.reward_sums = vec![100, 30, 60];
    n.completed_count = 16;
    let (action, score) = n.select_uct_action(true);
    assert_eq!(action, 2); // most visited, higher sum than action 1
    assert_eq!(score, 60 * MILLI / 6);
    let mut tie = Node::new(3, 0, true, None);
    tie.visits = vec![5, 5, 5];
    tie.reward_sums = vec![9, 9, 9];
    tie.completed_count = 15;
    let (action, _) = tie.select_uct_action(true);
    assert_eq!(action, 0); // full tie resolves to the lowest index
}

#[test]
fn uct_prefers_unvisited_actions() {
    let mut n = Node::new(3, 0, true, None);
    n.visits = vec![2, 0, 1];
    n.reward_sums = vec![1000, 0, 1000];
    n.completed_count = 3;
    let (action, score) = n.select_uct_action(false);
    assert_eq!(action, 1); // unvisited: unbounded confidence
    assert_eq!(score, i64::MAX);
}

#[test]
fn checkpoint_isolation_between_restores() {
    let sys = one_rewrite_system();
    let mut e1 = RewriteEnv::new(sys.clone());
    let parent: Ckpt = e1.checkpoint();
    // Two independent environments restore the same parent checkpoint and
    // diverge; neither observes the other's mutation.
    let mut e2 = RewriteEnv::new(sys.clone());
    e1.restore(&parent);
    e2.restore(&parent);
    let (r1, d1, _i1) = e1.step(1);
    let (r2, d2, _i2) = e2.step(0);
    assert_eq!(r1, 99);
    assert!(!d1);
    assert_eq!(r2, 0);
    assert!(d2);
    assert_eq!(e1.cur.state, 1);
    assert_eq!(e2.cur.state, 0); // untouched by e1's rewrite
    assert_eq!(parent.state, 0);
}

#[test]
fn env_reports_action_space_and_best_cost() {
    let mut e = RewriteEnv::new(one_rewrite_system());
    assert_eq!(e.get_action_space(), 2);
    assert_eq!(e.base_cost(), 100);
    let (reward, done, info) = e.step(1);
    assert_eq!(reward, 99);
    assert!(!done);
    assert_eq!(info.best_cost, 1);
    assert!(info.saturated == false);
    let (_, _, info2) = e.step(1);
    assert!(info2.saturated); // the self-loop rewrite makes no progress
}

#[test]
fn pool_exhaustion_queues_excess() {
    let sys = one_rewrite_system();
    let worker = RewriteEnv::new(sys.clone());
    let g = Gamma::new(9, 10);
    let mut pool: PoolManager<RewriteEnv> = PoolManager::new(vec![worker], g, 3);
    assert!(pool.has_idle_server());
    let env = RewriteEnv::new(sys);
    let task = ExpTask {
        checkpoint_data: env.checkpoint(),
        shallow_copy_node: NodeStub { action_count: 2, tried: vec![false, false] },
    };
    pool.assign_expansion_task(task, 1, 0);
    // The sole worker is busy until its reply is collected.
    assert!(!pool.has_idle_server());
    assert!(pool.fully_busy());
    let _reply = pool.get_complete_task();
    assert!(pool.has_idle_server());
}

#[test]
fn terminal_short_circuit_skips_the_pools() {
    // Action space of one: plan must return action 0 with the fixed score
    // without invoking any worker pool.
    let sys = stop_only_system();
    let g = Gamma::new(9, 10);
    let mut tree: Tree<RewriteEnv> = Tree::new(
        16,
        3,
        g,
        vec![RewriteEnv::new(sys.clone())],
        vec![RewriteEnv::new(sys.clone())],
    );
    let env = RewriteEnv::new(sys);
    let (action, score) = tree.plan(&env);
    assert_eq!(action, 0);
    assert_eq!(score, 10 * MILLI);
    assert_eq!(tree.exp_pool.completed.len(), 0);
    assert_eq!(tree.sim_pool.completed.len(), 0);
    assert_eq!(tree.nodes.len(), 0);
}

#[test]
fn single_rewrite_opportunity_converges_in_one_iteration() {
    // A graph with one applicable rule that strictly reduces cost must
    // converge in one outer iteration with the analytically reduced cost.
    let sys = one_rewrite_system();
    let g = Gamma::new(9, 10);
    let mut env = RewriteEnv::new(sys.clone());
    let args = MCTSArgs {
        budget: 64,
        max_sim_step: 3,
        gamma: g,
        expansion_worker_num: 1,
        simulation_worker_num: 1,
        cost_threshold: 2,
        iter_limit: 10,
        lp_extract: false,
        node_limit: 10_000,
        time_limit: 10,
    };
    let result = run_mcts(
        &mut env,
        vec![RewriteEnv::new(sys.clone())],
        vec![RewriteEnv::new(sys.clone())],
        args,
    );
    assert_eq!(result.iterations, 1);
    assert_eq!(result.best_cost, 1);
}

#[test]
fn plateau_stops_the_outer_loop() {
    // Two consecutive rounds scoring 1.0 and 0.9 sum below the threshold
    // of 2.0, so the loop must stop even with budget and iterations left.
    assert!(Tree::<RewriteEnv>::should_stop(
        false,
        100,
        10,
        2,
        100,
        900,  // 0.9 in fixed-point thousandths
        1000, // 1.0
    ));
    assert!(!Tree::<RewriteEnv>::should_stop(false, 100, 10, 2, 100, 1100, 1000));
    // Each other criterion alone also stops the loop.
    assert!(Tree::<RewriteEnv>::should_stop(true, 100, 10, 2, 100, MILLI * 9, MILLI * 9));
    assert!(Tree::<RewriteEnv>::should_stop(false, 5, 10, 2, 100, MILLI * 9, MILLI * 9));
    assert!(Tree::<RewriteEnv>::should_stop(false, 100, 10, 100, 100, MILLI * 9, MILLI * 9));
}

#[test]
fn random_below_stays_in_range() {
    for n in 1..20u64 {
        for _ in 0..10 {
            assert!(random_below(n) < n);
        }
    }
    assert_eq!(random_below(1), 0);
}
