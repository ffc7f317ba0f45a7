use vstd::prelude::*;
use crate::math::{sat_add, clamp_i64, div_trunc, log2_floor, sqrt_floor, clamp_i128_to_i64, ilog2_u64, isqrt_u64};
use crate::reward::{Gamma, spec_backup, backup};
use crate::task::NodeStub;

verus! {

/// One vertex of the search tree.  Children and the parent are arena
/// indices, so the child-to-parent back-reference is non-owning.  Per
/// action the node keeps: resolved visit count, in-flight (virtual-loss)
/// count, saturating sum of resolved rewards, last observed immediate
/// reward, terminal flag, and the child, present once the action has been
/// expanded.  `history` maps each in-flight task to the action it took
/// through this node; `completed_count` counts the resolved updates.
pub struct Node {
    pub action_count: usize,
    pub checkpoint_idx: u32,
    pub is_head: bool,
    pub parent: Option<usize>,
    pub children: Vec<Option<usize>>,
    pub visits: Vec<u32>,
    pub pending: Vec<u32>,
    pub reward_sums: Vec<i64>,
    pub rewards: Vec<i64>,
    pub dones: Vec<bool>,
    pub history: Vec<(u32, usize)>,
    pub completed_count: u32,
}

/// The mathematical model of a node, over which all contracts and laws of
/// the per-node bookkeeping are stated.
#[verifier::ext_equal]
pub ghost struct NodeView {
    pub action_count: int,
    pub checkpoint_idx: u32,
    pub is_head: bool,
    pub parent: Option<usize>,
    pub children: Seq<Option<usize>>,
    pub visits: Seq<u32>,
    pub pending: Seq<u32>,
    pub reward_sums: Seq<i64>,
    pub rewards: Seq<i64>,
    pub dones: Seq<bool>,
    pub history: Seq<(u32, usize)>,
    pub completed_count: u32,
}

impl View for Node {
    type V = NodeView;

    open spec fn view(&self) -> NodeView {
        NodeView {
            action_count: self.action_count as int,
            checkpoint_idx: self.checkpoint_idx,
            is_head: self.is_head,
            parent: self.parent,
            children: self.children@,
            visits: self.visits@,
            pending: self.pending@,
            reward_sums: self.reward_sums@,
            rewards: self.rewards@,
            dones: self.dones@,
            history: self.history@,
            completed_count: self.completed_count,
        }
    }
}

/// Sum of a sequence of counters, as a mathematical integer.
pub open spec fn seq_sum(s: Seq<u32>) -> int
    decreases s.len(),
{
    if s.len() == 0 {
        0
    } else {
        seq_sum(s.drop_last()) + s.last()
    }
}

/// The action recorded for task `idx`, if any (first match).
pub open spec fn hist_find(h: Seq<(u32, usize)>, idx: u32) -> Option<usize>
    decreases h.len(),
{
    if h.len() == 0 {
        None
    } else if h[0].0 == idx {
        Some(h[0].1)
    } else {
        hist_find(h.drop_first(), idx)
    }
}

/// `h` with the first entry for `idx` removed.
pub open spec fn hist_remove(h: Seq<(u32, usize)>, idx: u32) -> Seq<(u32, usize)>
    decreases h.len(),
{
    if h.len() == 0 {
        h
    } else if h[0].0 == idx {
        h.drop_first()
    } else {
        seq![h[0]].add(hist_remove(h.drop_first(), idx))
    }
}

impl NodeView {
    pub open spec fn wf(self) -> bool {
        &&& 1 <= self.action_count
        &&& self.children.len() == self.action_count
        &&& self.visits.len() == self.action_count
        &&& self.pending.len() == self.action_count
        &&& self.reward_sums.len() == self.action_count
        &&& self.rewards.len() == self.action_count
        &&& self.dones.len() == self.action_count
        &&& forall|i: int|
            0 <= i < self.history.len() ==> (#[trigger] self.history[i]).1 < self.action_count
        &&& seq_sum(self.visits) == self.completed_count
    }

    /// Action `a` has been visited at least once, a pending (virtual-loss)
    /// visit counting as a visit.
    pub open spec fn touched(self, a: int) -> bool {
        self.visits[a] + self.pending[a] > 0
    }

    /// Every action of this node is unvisited.
    pub open spec fn no_child_available(self) -> bool {
        forall|a: int| 0 <= a < self.action_count ==> !(#[trigger] self.touched(a))
    }

    /// Every action of this node has been visited at least once.
    pub open spec fn all_child_visited(self) -> bool {
        forall|a: int| 0 <= a < self.action_count ==> #[trigger] self.touched(a)
    }

    /// Record that in-flight task `idx` took `action` through this node and
    /// note the action's immediate reward.  A task id already on record is
    /// left as it is.
    pub open spec fn spec_update_history(self, idx: u32, action: int, reward: i64) -> NodeView {
        if hist_find(self.history, idx) is Some {
            self
        } else {
            NodeView {
                history: self.history.push((idx, action as usize)),
                rewards: self.rewards.update(action, reward),
                ..self
            }
        }
    }

    /// Register a pending (virtual-loss) visit for task `idx` on the action
    /// it took here; without a recorded action nothing changes.
    pub open spec fn spec_update_incomplete(self, idx: u32) -> NodeView {
        match hist_find(self.history, idx) {
            None => self,
            Some(a) => {
                if self.pending[a as int] == u32::MAX {
                    self
                } else {
                    NodeView {
                        pending: self.pending.update(a as int, (self.pending[a as int] + 1) as u32),
                        ..self
                    }
                }
            },
        }
    }

    /// Resolve the pending visit of task `idx`: count one resolved visit on
    /// the recorded action, credit the action's backed-up value
    /// `below * gamma + rewards[action]` to its reward sum, forget the
    /// history entry, and hand that same value up as the reward one level
    /// closer to the root.  Without a recorded action (or with the visit
    /// counter exhausted) the statistics stay as they are and the bare
    /// discounted value is handed up.
    pub open spec fn spec_update_complete(self, idx: u32, below: int, g: Gamma) -> (NodeView, int) {
        match hist_find(self.history, idx) {
            None => (self, spec_backup(below, g.num as int, g.den as int, 0)),
            Some(a) => {
                let out = spec_backup(below, g.num as int, g.den as int, self.rewards[a as int] as int);
                if self.completed_count == u32::MAX {
                    (self, out)
                } else {
                    let node = NodeView {
                        visits: self.visits.update(a as int, (self.visits[a as int] + 1) as u32),
                        pending: if self.pending[a as int] > 0 {
                            self.pending.update(a as int, (self.pending[a as int] - 1) as u32)
                        } else {
                            self.pending
                        },
                        reward_sums: self.reward_sums.update(
                            a as int,
                            sat_add(self.reward_sums[a as int] as int, out) as i64,
                        ),
                        history: hist_remove(self.history, idx),
                        completed_count: (self.completed_count + 1) as u32,
                        ..self
                    };
                    (node, out)
                }
            },
        }
    }

    /// Times action `a` has been played: resolved visits and virtual losses.
    pub open spec fn plays(self, a: int) -> int {
        self.visits[a] + self.pending[a]
    }

    /// Total plays over all actions, capped for the exploration formula.
    pub open spec fn total_plays(self) -> int {
        seq_sum(self.visits) + seq_sum(self.pending)
    }

    pub open spec fn total_plays_capped(self) -> int {
        if self.total_plays() > u32::MAX as int {
            u32::MAX as int
        } else {
            self.total_plays()
        }
    }

    /// Mean reward of action `a` in fixed-point thousandths, a pending
    /// visit counting as a zero-reward play (the virtual loss).
    pub open spec fn mean_milli(self, a: int) -> int {
        if self.plays(a) <= 0 {
            0
        } else {
            clamp_i64(div_trunc(self.reward_sums[a] * 1000, self.plays(a)))
        }
    }

    /// Exploration bonus in thousandths, proportional to
    /// `sqrt(log(total) / (1 + plays))`.
    pub open spec fn bonus_milli(self, a: int) -> int {
        sqrt_floor(
            ((1000000 * (log2_floor((self.total_plays_capped() + 1) as nat) as int)) / (
            self.plays(a) + 1)) as nat,
        ) as int
    }

    /// The upper-confidence selection key of action `a`: an unvisited
    /// action has an unbounded bound and is always preferred; otherwise the
    /// mean plus the exploration bonus.
    pub open spec fn ucb_key(self, a: int) -> int {
        if !self.touched(a) {
            i64::MAX as int
        } else {
            let v = self.mean_milli(a) + self.bonus_milli(a);
            if v > i64::MAX as int - 1 {
                i64::MAX as int - 1
            } else {
                v
            }
        }
    }

    /// Strict preference for the final (committed) choice: more resolved
    /// visits, mean resolved reward breaking ties; index order breaks the
    /// rest.
    pub open spec fn final_better(self, a: int, b: int) -> bool {
        self.visits[a] > self.visits[b] || (self.visits[a] == self.visits[b]
            && self.reward_sums[a] > self.reward_sums[b])
    }

    /// Mean resolved reward of action `a` in thousandths.
    pub open spec fn final_score(self, a: int) -> int {
        if self.visits[a] == 0 {
            0
        } else {
            clamp_i64(div_trunc(self.reward_sums[a] * 1000, self.visits[a] as int))
        }
    }
}

impl Node {
    pub fn new(action_count: usize, checkpoint_idx: u32, is_head: bool, parent: Option<usize>)
        -> (n: Node)
        requires
            1 <= action_count,
        ensures
            n@.wf(),
            n.action_count == action_count,
            n.checkpoint_idx == checkpoint_idx,
            n.is_head == is_head,
            n.parent == parent,
            n@.children == Seq::new(action_count as nat, |i: int| None::<usize>),
            n@.visits == Seq::new(action_count as nat, |i: int| 0u32),
            n@.pending == Seq::new(action_count as nat, |i: int| 0u32),
            n@.reward_sums == Seq::new(action_count as nat, |i: int| 0i64),
            n@.rewards == Seq::new(action_count as nat, |i: int| 0i64),
            n@.dones == Seq::new(action_count as nat, |i: int| false),
            n@.history == Seq::<(u32, usize)>::empty(),
            n.completed_count == 0,
            n@.no_child_available(),
    {
        let mut children: Vec<Option<usize>> = Vec::new();
        let mut visits: Vec<u32> = Vec::new();
        let mut pending: Vec<u32> = Vec::new();
        let mut reward_sums: Vec<i64> = Vec::new();
        let mut rewards: Vec<i64> = Vec::new();
        let mut dones: Vec<bool> = Vec::new();
        let mut i: usize = 0;
        while i < action_count
            invariant
                i <= action_count,
                children@ == Seq::new(i as nat, |j: int| None::<usize>),
                visits@ == Seq::new(i as nat, |j: int| 0u32),
                pending@ == Seq::new(i as nat, |j: int| 0u32),
                reward_sums@ == Seq::new(i as nat, |j: int| 0i64),
                rewards@ == Seq::new(i as nat, |j: int| 0i64),
                dones@ == Seq::new(i as nat, |j: int| false),
            decreases action_count - i,
        {
            children.push(None);
            visits.push(0);
            pending.push(0);
            reward_sums.push(0);
            rewards.push(0);
            dones.push(false);
            i = i + 1;
            proof {
                assert(children@ =~= Seq::new(i as nat, |j: int| None::<usize>));
                assert(visits@ =~= Seq::new(i as nat, |j: int| 0u32));
                assert(pending@ =~= Seq::new(i as nat, |j: int| 0u32));
                assert(reward_sums@ =~= Seq::new(i as nat, |j: int| 0i64));
                assert(rewards@ =~= Seq::new(i as nat, |j: int| 0i64));
                assert(dones@ =~= Seq::new(i as nat, |j: int| false));
            }
        }
        let n = Node {
            action_count,
            checkpoint_idx,
            is_head,
            parent,
            children,
            visits,
            pending,
            reward_sums,
            rewards,
            dones,
            history: Vec::new(),
            completed_count: 0,
        };
        proof {
            lemma_seq_sum_zero(n.visits@);
        }
        n
    }

    pub fn no_child_available(&self) -> (r: bool)
        requires
            self@.wf(),
        ensures
            r == self@.no_child_available(),
    {
        let mut a: usize = 0;
        while a < self.action_count
            invariant
                self@.wf(),
                a <= self.action_count,
                forall|i: int| 0 <= i < a ==> !(#[trigger] self@.touched(i)),
            decreases self.action_count - a,
        {
            if self.visits[a] > 0 || self.pending[a] > 0 {
                assert(self@.touched(a as int));
                return false;
            }
            a = a + 1;
        }
        true
    }

    pub fn all_child_visited(&self) -> (r: bool)
        requires
            self@.wf(),
        ensures
            r == self@.all_child_visited(),
    {
        let mut a: usize = 0;
        while a < self.action_count
            invariant
                self@.wf(),
                a <= self.action_count,
                forall|i: int| 0 <= i < a ==> #[trigger] self@.touched(i),
            decreases self.action_count - a,
        {
            if self.visits[a] == 0 && self.pending[a] == 0 {
                assert(!self@.touched(a as int));
                return false;
            }
            a = a + 1;
        }
        true
    }

    pub fn update_history(&mut self, idx: u32, action: usize, reward: i64)
        requires
            old(self)@.wf(),
            action < old(self).action_count,
        ensures
            final(self)@ == old(self)@.spec_update_history(idx, action as int, reward),
            final(self)@.wf(),
    {
        let found = find_history(&self.history, idx);
        if found.is_none() {
            self.history.push((idx, action));
            self.rewards.set(action, reward);
        }
        proof {
            assert(final(self)@ =~= old(self)@.spec_update_history(idx, action as int, reward));
        }
    }

    pub fn update_incomplete(&mut self, idx: u32)
        requires
            old(self)@.wf(),
        ensures
            final(self)@ == old(self)@.spec_update_incomplete(idx),
            final(self)@.wf(),
    {
        let found = find_history(&self.history, idx);
        proof {
            lemma_hist_find_ok(self.history@, idx, self.action_count as int);
        }
        if let Some(a) = found {
            let p = self.pending[a];
            if p < u32::MAX {
                self.pending.set(a, p + 1);
            }
        }
        proof {
            assert(final(self)@ =~= old(self)@.spec_update_incomplete(idx));
        }
    }

    pub fn update_complete(&mut self, idx: u32, below: i64, g: &Gamma) -> (out: i64)
        requires
            old(self)@.wf(),
            g.wf(),
        ensures
            final(self)@ == old(self)@.spec_update_complete(idx, below as int, *g).0,
            out as int == old(self)@.spec_update_complete(idx, below as int, *g).1,
            final(self)@.wf(),
    {
        let found = find_history(&self.history, idx);
        proof {
            lemma_hist_find_ok(self.history@, idx, self.action_count as int);
        }
        match found {
            None => {
                let out = backup(below, g, 0);
                proof {
                    assert(final(self)@ =~= old(self)@.spec_update_complete(idx, below as int, *g).0);
                }
                out
            },
            Some(a) => {
                let out = backup(below, g, self.rewards[a]);
                if self.completed_count < u32::MAX {
                    proof {
                        lemma_seq_sum_bound(self.visits@, a as int);
                    }
                    let v = self.visits[a];
                    self.visits.set(a, v + 1);
                    let p = self.pending[a];
                    if p > 0 {
                        self.pending.set(a, p - 1);
                    }
                    let s = self.reward_sums[a];
                    self.reward_sums.set(a, crate::math::sat_add_i64(s, out));
                    remove_history(&mut self.history, idx);
                    self.completed_count = self.completed_count + 1;
                    proof {
                        lemma_seq_sum_update(
                            old(self).visits@,
                            a as int,
                            (old(self).visits[a as int] + 1) as u32,
                        );
                        lemma_hist_remove_ok(old(self)@.history, idx, old(self)@.action_count);
                        assert(final(self)@ =~= old(self)@.spec_update_complete(
                            idx,
                            below as int,
                            *g,
                        ).0);
                    }
                } else {
                    proof {
                        assert(final(self)@ =~= old(self)@.spec_update_complete(
                            idx,
                            below as int,
                            *g,
                        ).0);
                    }
                }
                out
            },
        }
    }

    /// Materialize the child for `action` at arena index `child_idx`.
    pub fn set_child(&mut self, action: usize, child_idx: usize)
        requires
            old(self)@.wf(),
            action < old(self).action_count,
        ensures
            final(self)@ == (NodeView {
                children: old(self)@.children.update(action as int, Some(child_idx)),
                ..old(self)@
            }),
            final(self)@.wf(),
    {
        self.children.set(action, Some(child_idx));
        proof {
            assert(final(self)@ =~= (NodeView {
                children: old(self)@.children.update(action as int, Some(child_idx)),
                ..old(self)@
            }));
        }
    }

    pub fn set_done(&mut self, action: usize, done: bool)
        requires
            old(self)@.wf(),
            action < old(self).action_count,
        ensures
            final(self)@ == (NodeView {
                dones: old(self)@.dones.update(action as int, done),
                ..old(self)@
            }),
            final(self)@.wf(),
    {
        self.dones.set(action, done);
        proof {
            assert(final(self)@ =~= (NodeView {
                dones: old(self)@.dones.update(action as int, done),
                ..old(self)@
            }));
        }
    }

    pub fn set_reward(&mut self, action: usize, reward: i64)
        requires
            old(self)@.wf(),
            action < old(self).action_count,
        ensures
            final(self)@ == (NodeView {
                rewards: old(self)@.rewards.update(action as int, reward),
                ..old(self)@
            }),
            final(self)@.wf(),
    {
        self.rewards.set(action, reward);
        proof {
            assert(final(self)@ =~= (NodeView {
                rewards: old(self)@.rewards.update(action as int, reward),
                ..old(self)@
            }));
        }
    }

    /// Total plays over all actions, capped at `u32::MAX`.
    fn total_plays_exec(&self) -> (t: u64)
        requires
            self@.wf(),
        ensures
            t as int == self@.total_plays_capped(),
            t <= u32::MAX,
    {
        let cap: u64 = 0xFFFFFFFF;
        let mut acc: u64 = 0;
        let mut a: usize = 0;
        proof {
            assert(self@.visits.take(0) =~= Seq::<u32>::empty());
            assert(self@.pending.take(0) =~= Seq::<u32>::empty());
        }
        while a < self.action_count
            invariant
                self@.wf(),
                a <= self.action_count,
                cap == 0xFFFFFFFF,
                acc <= cap,
                ({
                    let p = seq_sum(self@.visits.take(a as int)) + seq_sum(
                        self@.pending.take(a as int),
                    );
                    acc as int == if p > cap as int {
                        cap as int
                    } else {
                        p
                    }
                }),
            decreases self.action_count - a,
        {
            let v = self.visits[a];
            let p = self.pending[a];
            let sum = acc + v as u64 + p as u64;
            proof {
                assert(self@.visits.take(a as int + 1).drop_last() =~= self@.visits.take(a as int));
                assert(self@.pending.take(a as int + 1).drop_last() =~= self@.pending.take(
                    a as int,
                ));
                lemma_seq_sum_nonneg(self@.visits.take(a as int));
                lemma_seq_sum_nonneg(self@.pending.take(a as int));
            }
            if sum > cap {
                acc = cap;
            } else {
                acc = sum;
            }
            a = a + 1;
        }
        proof {
            assert(self@.visits.take(self.action_count as int) =~= self@.visits);
            assert(self@.pending.take(self.action_count as int) =~= self@.pending);
        }
        acc
    }

    /// The selection key of action `a`, given the capped total play count.
    fn ucb_key_exec(&self, a: usize, total: u64) -> (k: i64)
        requires
            self@.wf(),
            a < self.action_count,
            total as int == self@.total_plays_capped(),
            total <= u32::MAX,
        ensures
            k as int == self@.ucb_key(a as int),
    {
        let v = self.visits[a];
        let p = self.pending[a];
        if v == 0 && p == 0 {
            proof {
                assert(!self@.touched(a as int));
            }
            return i64::MAX;
        }
        let plays: u64 = v as u64 + p as u64;
        let s = self.reward_sums[a];
        let prod: i128 = (s as i128) * 1000;
        let mean = if prod >= 0 {
            clamp_i128_to_i64(prod / (plays as i128))
        } else {
            clamp_i128_to_i64(-((-prod) / (plays as i128)))
        };
        let lg = ilog2_u64(total + 1);
        let bonus = isqrt_u64((1000000 * lg) / (plays + 1));
        let key: i128 = mean as i128 + bonus as i128;
        proof {
            assert(self@.touched(a as int));
            assert(mean as int == self@.mean_milli(a as int));
            assert(bonus as int == self@.bonus_milli(a as int));
        }
        if key > (i64::MAX - 1) as i128 {
            i64::MAX - 1
        } else {
            key as i64
        }
    }

    /// Mean resolved reward of action `a` in thousandths.
    fn final_score_exec(&self, a: usize) -> (k: i64)
        requires
            self@.wf(),
            a < self.action_count,
        ensures
            k as int == self@.final_score(a as int),
    {
        let v = self.visits[a];
        if v == 0 {
            return 0;
        }
        let s = self.reward_sums[a];
        let prod: i128 = (s as i128) * 1000;
        if prod >= 0 {
            clamp_i128_to_i64(prod / (v as i128))
        } else {
            clamp_i128_to_i64(-((-prod) / (v as i128)))
        }
    }

    /// Pick an action.  With `is_final` (used once, to commit the root's
    /// action after the budget) the action with the most resolved visits
    /// wins, mean reward breaking ties, the lowest index breaking the rest;
    /// its score is the mean resolved reward in thousandths.  Otherwise the
    /// action maximizing the upper-confidence key wins, an unvisited action
    /// always being preferred, and the key is returned as the score.
    pub fn select_uct_action(&self, is_final: bool) -> (r: (usize, i64))
        requires
            self@.wf(),
        ensures
            r.0 < self.action_count,
            is_final ==> forall|b: int|
                0 <= b < self@.action_count ==> !(#[trigger] self@.final_better(b, r.0 as int)),
            is_final ==> forall|b: int|
                0 <= b < r.0 ==> #[trigger] self@.final_better(r.0 as int, b),
            is_final ==> r.1 as int == self@.final_score(r.0 as int),
            !is_final ==> forall|b: int|
                0 <= b < self@.action_count ==> #[trigger] self@.ucb_key(b) <= self@.ucb_key(
                    r.0 as int,
                ),
            !is_final ==> forall|b: int|
                0 <= b < r.0 ==> #[trigger] self@.ucb_key(b) < self@.ucb_key(r.0 as int),
            !is_final ==> r.1 as int == self@.ucb_key(r.0 as int),
    {
        if is_final {
            let mut best: usize = 0;
            let mut b: usize = 1;
            while b < self.action_count
                invariant
                    self@.wf(),
                    best < b <= self.action_count,
                    forall|j: int| 0 <= j < b ==> !(#[trigger] self@.final_better(j, best as int)),
                    forall|j: int| 0 <= j < best ==> #[trigger] self@.final_better(best as int, j),
                decreases self.action_count - b,
            {
                if self.visits[b] > self.visits[best] || (self.visits[b] == self.visits[best]
                    && self.reward_sums[b] > self.reward_sums[best]) {
                    proof {
                        assert(self@.final_better(b as int, best as int));
                        assert forall|j: int| 0 <= j < b implies #[trigger] self@.final_better(
                            b as int,
                            j,
                        ) by {
                            assert(!self@.final_better(j, best as int));
                        }
                        assert forall|j: int| 0 <= j < b implies !(#[trigger] self@.final_better(
                            j,
                            b as int,
                        )) by {
                            assert(self@.final_better(b as int, j));
                        }
                    }
                    best = b;
                }
                b = b + 1;
            }
            let score = self.final_score_exec(best);
            (best, score)
        } else {
            let total = self.total_plays_exec();
            let mut best: usize = 0;
            let mut best_key = self.ucb_key_exec(0, total);
            let mut b: usize = 1;
            while b < self.action_count
                invariant
                    self@.wf(),
                    best < b <= self.action_count,
                    total as int == self@.total_plays_capped(),
                    total <= u32::MAX,
                    best_key as int == self@.ucb_key(best as int),
                    forall|j: int| 0 <= j < b ==> #[trigger] self@.ucb_key(j) <= best_key as int,
                    forall|j: int| 0 <= j < best ==> #[trigger] self@.ucb_key(j) < best_key as int,
                decreases self.action_count - b,
            {
                let key = self.ucb_key_exec(b, total);
                if key > best_key {
                    best = b;
                    best_key = key;
                }
                b = b + 1;
            }
            (best, best_key)
        }
    }
}

impl Node {
    /// The shallow copy of this node's shape that an expansion task
    /// carries: the action count and which actions are already visited.
    pub fn make_stub(&self) -> (st: NodeStub)
        requires
            self@.wf(),
        ensures
            st.wf(),
            st.action_count == self.action_count,
            forall|a: int| 0 <= a < st.action_count ==> #[trigger] st.tried[a] == self@.touched(a),
    {
        let mut tried: Vec<bool> = Vec::new();
        let mut a: usize = 0;
        while a < self.action_count
            invariant
                self@.wf(),
                a <= self.action_count,
                tried.len() == a,
                forall|j: int| 0 <= j < a ==> #[trigger] tried[j] == self@.touched(j),
            decreases self.action_count - a,
        {
            tried.push(self.visits[a] > 0 || self.pending[a] > 0);
            a = a + 1;
        }
        NodeStub { action_count: self.action_count, tried }
    }
}

/// First history entry for `idx`, as the executable counterpart of
/// `hist_find`.
fn find_history(h: &Vec<(u32, usize)>, idx: u32) -> (r: Option<usize>)
    ensures
        r == hist_find(h@, idx),
{
    let mut i: usize = 0;
    proof {
        assert(h@.skip(0) =~= h@);
    }
    while i < h.len()
        invariant
            i <= h.len(),
            hist_find(h@, idx) == hist_find(h@.skip(i as int), idx),
        decreases h.len() - i,
    {
        proof {
            assert(h@.skip(i as int)[0] == h@[i as int]);
        }
        if h[i].0 == idx {
            return Some(h[i].1);
        }
        proof {
            assert(h@.skip(i as int).drop_first() =~= h@.skip(i as int + 1));
        }
        i = i + 1;
    }
    proof {
        assert(h@.skip(h@.len() as int).len() == 0);
    }
    None
}

/// Remove the first history entry for `idx`, matching `hist_remove`.
fn remove_history(h: &mut Vec<(u32, usize)>, idx: u32)
    ensures
        final(h)@ == hist_remove(old(h)@, idx),
{
    let mut i: usize = 0;
    while i < h.len()
        invariant
            i <= h.len(),
            h@ == old(h)@,
            forall|j: int| 0 <= j < i ==> (#[trigger] h@[j]).0 != idx,
        decreases h.len() - i,
    {
        if h[i].0 == idx {
            h.remove(i);
            proof {
                lemma_hist_remove_at(old(h)@, idx, i as int);
            }
            return;
        }
        i = i + 1;
    }
    proof {
        lemma_hist_remove_absent(h@, idx);
    }
}

pub proof fn lemma_seq_sum_zero(s: Seq<u32>)
    requires
        forall|i: int| 0 <= i < s.len() ==> s[i] == 0,
    ensures
        seq_sum(s) == 0,
    decreases s.len(),
{
    if s.len() > 0 {
        lemma_seq_sum_zero(s.drop_last());
    }
}

/// Each counter is bounded by the sum of all of them.
pub proof fn lemma_seq_sum_bound(s: Seq<u32>, a: int)
    requires
        0 <= a < s.len(),
    ensures
        s[a] <= seq_sum(s),
        seq_sum(s) >= 0,
    decreases s.len(),
{
    lemma_seq_sum_nonneg(s);
    if s.len() > 0 {
        if a == s.len() - 1 {
            lemma_seq_sum_nonneg(s.drop_last());
        } else {
            lemma_seq_sum_bound(s.drop_last(), a);
        }
    }
}

pub proof fn lemma_seq_sum_nonneg(s: Seq<u32>)
    ensures
        seq_sum(s) >= 0,
    decreases s.len(),
{
    if s.len() > 0 {
        lemma_seq_sum_nonneg(s.drop_last());
    }
}

/// Replacing one counter changes the sum by the difference.
pub proof fn lemma_seq_sum_update(s: Seq<u32>, a: int, v: u32)
    requires
        0 <= a < s.len(),
    ensures
        seq_sum(s.update(a, v)) == seq_sum(s) - s[a] + v,
    decreases s.len(),
{
    if a == s.len() - 1 {
        assert(s.update(a, v).drop_last() =~= s.drop_last());
        assert(s.update(a, v).last() == v);
    } else {
        assert(s.update(a, v).drop_last() =~= s.drop_last().update(a, v));
        lemma_seq_sum_update(s.drop_last(), a, v);
        assert(s.update(a, v).last() == s.last());
    }
}

/// A recorded action is in range when every history entry is.
pub proof fn lemma_hist_find_ok(h: Seq<(u32, usize)>, idx: u32, count: int)
    requires
        forall|i: int| 0 <= i < h.len() ==> (#[trigger] h[i]).1 < count,
    ensures
        hist_find(h, idx) is Some ==> hist_find(h, idx)->Some_0 < count,
    decreases h.len(),
{
    if h.len() > 0 && h[0].0 != idx {
        lemma_hist_find_ok(h.drop_first(), idx, count);
    }
}

/// Removing a history entry keeps every remaining action in range.
pub proof fn lemma_hist_remove_ok(h: Seq<(u32, usize)>, idx: u32, count: int)
    requires
        forall|i: int| 0 <= i < h.len() ==> (#[trigger] h[i]).1 < count,
    ensures
        forall|i: int|
            0 <= i < hist_remove(h, idx).len() ==> (#[trigger] hist_remove(h, idx)[i]).1 < count,
        hist_remove(h, idx).len() <= h.len(),
    decreases h.len(),
{
    if h.len() > 0 && h[0].0 != idx {
        lemma_hist_remove_ok(h.drop_first(), idx, count);
        let r = seq![h[0]].add(hist_remove(h.drop_first(), idx));
        assert forall|i: int| 0 <= i < r.len() implies (#[trigger] r[i]).1 < count by {
            if i > 0 {
                assert(r[i] == hist_remove(h.drop_first(), idx)[i - 1]);
            }
        }
    }
}

/// When the first match for `idx` sits at position `i`, `hist_remove` is
/// removal of that position.
proof fn lemma_hist_remove_at(h: Seq<(u32, usize)>, idx: u32, i: int)
    requires
        0 <= i < h.len(),
        h[i].0 == idx,
        forall|j: int| 0 <= j < i ==> (#[trigger] h[j]).0 != idx,
    ensures
        hist_remove(h, idx) == h.remove(i),
    decreases h.len(),
{
    if i == 0 {
        assert(h.drop_first() =~= h.remove(0));
    } else {
        lemma_hist_remove_at(h.drop_first(), idx, i - 1);
        assert(seq![h[0]].add(h.drop_first().remove(i - 1)) =~= h.remove(i));
    }
}

proof fn lemma_hist_remove_absent(h: Seq<(u32, usize)>, idx: u32)
    requires
        forall|j: int| 0 <= j < h.len() ==> (#[trigger] h[j]).0 != idx,
    ensures
        hist_remove(h, idx) == h,
    decreases h.len(),
{
    if h.len() > 0 {
        lemma_hist_remove_absent(h.drop_first(), idx);
        assert(seq![h[0]].add(h.drop_first()) =~= h);
    }
}

} // verus!
