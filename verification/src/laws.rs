use vstd::prelude::*;
use crate::env::Env;
use crate::math::sat_add;
use crate::node::{NodeView, hist_find, hist_remove, seq_sum, lemma_seq_sum_update, lemma_seq_sum_bound, lemma_hist_find_ok};
use crate::reward::Gamma;

verus! {

/// Removing one task's history entry does not disturb another task's.
proof fn lemma_hist_remove_other(h: Seq<(u32, usize)>, i1: u32, i2: u32)
    requires
        i1 != i2,
    ensures
        hist_find(hist_remove(h, i2), i1) == hist_find(h, i1),
    decreases h.len(),
{
    if h.len() > 0 {
        if h[0].0 == i2 {
        } else {
            lemma_hist_remove_other(h.drop_first(), i1, i2);
            let r = seq![h[0]].add(hist_remove(h.drop_first(), i2));
            assert(r[0] == h[0]);
            assert(r.drop_first() =~= hist_remove(h.drop_first(), i2));
        }
    }
}

/// Removing two different tasks' history entries commutes.
proof fn lemma_hist_remove_comm(h: Seq<(u32, usize)>, i1: u32, i2: u32)
    requires
        i1 != i2,
    ensures
        hist_remove(hist_remove(h, i1), i2) == hist_remove(hist_remove(h, i2), i1),
    decreases h.len(),
{
    if h.len() > 0 {
        if h[0].0 == i1 {
            let r = seq![h[0]].add(hist_remove(h.drop_first(), i2));
            assert(r[0] == h[0]);
            assert(r.drop_first() =~= hist_remove(h.drop_first(), i2));
        } else if h[0].0 == i2 {
            let r = seq![h[0]].add(hist_remove(h.drop_first(), i1));
            assert(r[0] == h[0]);
            assert(r.drop_first() =~= hist_remove(h.drop_first(), i1));
        } else {
            lemma_hist_remove_comm(h.drop_first(), i1, i2);
            let r1 = seq![h[0]].add(hist_remove(h.drop_first(), i1));
            let r2 = seq![h[0]].add(hist_remove(h.drop_first(), i2));
            assert(r1[0] == h[0] && r2[0] == h[0]);
            assert(r1.drop_first() =~= hist_remove(h.drop_first(), i1));
            assert(r2.drop_first() =~= hist_remove(h.drop_first(), i2));
            assert(seq![h[0]].add(hist_remove(hist_remove(h.drop_first(), i1), i2)) =~= hist_remove(
                r1,
                i2,
            ));
            assert(seq![h[0]].add(hist_remove(hist_remove(h.drop_first(), i2), i1)) =~= hist_remove(
                r2,
                i1,
            ));
        }
    }
}

/// Determinism of bookkeeping: resolving two different in-flight tasks
/// through one node yields the same statistics in either draining order,
/// and each task's propagated reward does not depend on the order, as long
/// as neither counter saturates.  Hence the multiset of backpropagated
/// rewards of a budget of simulations does not depend on the order in
/// which completed results are drained.
pub proof fn lemma_backprop_commutes(n: NodeView, i1: u32, i2: u32, b1: int, b2: int, g: Gamma)
    requires
        n.wf(),
        g.wf(),
        i1 != i2,
        hist_find(n.history, i1) is Some,
        hist_find(n.history, i2) is Some,
        n.completed_count + 2 <= u32::MAX,
        ({
            let a1 = hist_find(n.history, i1).unwrap() as int;
            let a2 = hist_find(n.history, i2).unwrap() as int;
            let o1 = n.spec_update_complete(i1, b1, g).1;
            let o2 = n.spec_update_complete(i2, b2, g).1;
            &&& i64::MIN <= n.reward_sums[a1] + o1 <= i64::MAX
            &&& i64::MIN <= n.reward_sums[a2] + o2 <= i64::MAX
            &&& (a1 == a2 ==> i64::MIN <= n.reward_sums[a1] + o1 + o2 <= i64::MAX)
        }),
    ensures
        n.spec_update_complete(i1, b1, g).0.spec_update_complete(i2, b2, g).0
            == n.spec_update_complete(i2, b2, g).0.spec_update_complete(i1, b1, g).0,
        n.spec_update_complete(i1, b1, g).0.spec_update_complete(i2, b2, g).1
            == n.spec_update_complete(i2, b2, g).1,
        n.spec_update_complete(i2, b2, g).0.spec_update_complete(i1, b1, g).1
            == n.spec_update_complete(i1, b1, g).1,
{
    let a1 = hist_find(n.history, i1).unwrap() as int;
    let a2 = hist_find(n.history, i2).unwrap() as int;
    lemma_hist_find_ok(n.history, i1, n.action_count);
    lemma_hist_find_ok(n.history, i2, n.action_count);
    let m1 = n.spec_update_complete(i1, b1, g).0;
    let m2 = n.spec_update_complete(i2, b2, g).0;
    lemma_hist_remove_other(n.history, i2, i1);
    lemma_hist_remove_other(n.history, i1, i2);
    assert(hist_find(m1.history, i2) == hist_find(n.history, i2));
    assert(hist_find(m2.history, i1) == hist_find(n.history, i1));
    lemma_hist_remove_comm(n.history, i1, i2);
    let f1 = m1.spec_update_complete(i2, b2, g).0;
    let f2 = m2.spec_update_complete(i1, b1, g).0;
    assert(f1.visits =~= f2.visits);
    assert(f1.pending =~= f2.pending);
    let o1 = n.spec_update_complete(i1, b1, g).1;
    let o2 = n.spec_update_complete(i2, b2, g).1;
    if a1 == a2 {
        assert(sat_add(sat_add(n.reward_sums[a1] as int, o1), o2) == sat_add(
            sat_add(n.reward_sums[a1] as int, o2),
            o1,
        ));
    }
    assert(f1.reward_sums =~= f2.reward_sums);
    assert(f1 =~= f2);
}

/// Checkpoint isolation: an environment restored from a snapshot is a pure
/// value of the system and the snapshot alone, so two environments sharing
/// one system and restoring two snapshots derived from one parent can
/// never observe each other's mutations, and every worker computes the
/// same step outcome from the same snapshot.
pub proof fn lemma_checkpoint_isolation<E: Env>(e1: E, e2: E, s1: E::Snap, s2: E::Snap, a: usize)
    requires
        e1.same_sys(&e2),
    ensures
        e1.with_snap(s1) == e2.with_snap(s1),
        e1.with_snap(s2) == e2.with_snap(s2),
        e1.with_snap(s1).step_spec(a) == e2.with_snap(s1).step_spec(a),
{
    e1.lemma_sys(&e2);
}

/// Conservation under backpropagation: in every well-formed node the sum
/// of per-action resolved visit counts equals the number of times a
/// pending visit has been resolved through it.  The invariant is
/// established at creation and preserved by every bookkeeping operation.
pub proof fn lemma_visit_conservation(n: NodeView)
    requires
        n.wf(),
    ensures
        seq_sum(n.visits) == n.completed_count,
{
}

/// Each resolution accounts for exactly one visit: resolving a pending
/// visit raises both the visit-count sum and the resolution counter by
/// one.
pub proof fn lemma_complete_adds_one(n: NodeView, idx: u32, below: int, g: Gamma)
    requires
        n.wf(),
        g.wf(),
        hist_find(n.history, idx) is Some,
        n.completed_count < u32::MAX,
    ensures
        seq_sum(n.spec_update_complete(idx, below, g).0.visits) == seq_sum(n.visits) + 1,
        n.spec_update_complete(idx, below, g).0.completed_count == n.completed_count + 1,
{
    let a = hist_find(n.history, idx).unwrap() as int;
    lemma_hist_find_ok(n.history, idx, n.action_count);
    lemma_seq_sum_bound(n.visits, a);
    lemma_seq_sum_update(n.visits, a, (n.visits[a] + 1) as u32);
}

} // verus!
