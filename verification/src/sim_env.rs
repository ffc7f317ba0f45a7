use vstd::prelude::*;
use crate::env::{Env, StepInfo};

verus! {

/// One abstract rewrite state: its extracted cost and, for each rewrite
/// action, the state the rewrite leads to.
#[derive(Clone, Debug)]
#[verifier::ext_equal]
pub struct StateDesc {
    pub cost: u32,
    pub succs: Vec<u32>,
}

/// An explicit rewrite system: a finite table of states.  Every state
/// offers the same number of rewrite actions, as the rewrite engine offers
/// its fixed ruleset everywhere; action `0` is the designated stop action
/// and rewrite action `a >= 1` at state `s` leads to `states[s].succs[a-1]`.
#[derive(Clone, Debug)]
#[verifier::ext_equal]
pub struct EnvSystem {
    pub states: Vec<StateDesc>,
    pub num_rewrites: usize,
}

impl EnvSystem {
    pub open spec fn wf(self) -> bool {
        &&& 1 <= self.states.len() <= u32::MAX
        &&& self.num_rewrites < usize::MAX
        &&& forall|i: int|
            0 <= i < self.states.len() ==> (#[trigger] self.states[i]).succs.len()
                == self.num_rewrites
        &&& forall|i: int, a: int|
            0 <= i < self.states.len() && 0 <= a < self.num_rewrites
                ==> (#[trigger] self.states[i].succs[a]) < self.states.len()
    }
}

/// A checkpoint of the model environment: the current state and the best
/// cost seen on the way to it.  A plain value, so two restored checkpoints
/// can never alias.
#[derive(Clone, Copy, PartialEq, Eq, Structural, Debug)]
pub struct Ckpt {
    pub state: u32,
    pub best_cost: u32,
}

/// The concrete rewrite environment of this crate: a verified model of the
/// checkpoint/restore/step contract over an explicit rewrite system.
#[derive(Clone, Debug)]
#[verifier::ext_equal]
pub struct RewriteEnv {
    pub sys: EnvSystem,
    pub cur: Ckpt,
}

impl RewriteEnv {
    pub open spec fn spec_new(sys: EnvSystem) -> RewriteEnv {
        RewriteEnv {
            sys: sys,
            cur: Ckpt { state: 0, best_cost: sys.states[0].cost },
        }
    }

    pub fn new(sys: EnvSystem) -> (e: RewriteEnv)
        requires
            sys.wf(),
        ensures
            e == RewriteEnv::spec_new(sys),
            e.wf(),
    {
        let first_cost = sys.states[0].cost;
        RewriteEnv { sys, cur: Ckpt { state: 0, best_cost: first_cost } }
    }

    /// The cost the environment started from.
    pub fn base_cost(&self) -> (c: u32)
        requires
            self.wf(),
        ensures
            c == self.sys.states[0].cost,
    {
        self.sys.states[0].cost
    }
}

impl Env for RewriteEnv {
    type Snap = Ckpt;

    open spec fn wf(&self) -> bool {
        self.sys.wf() && self.cur.state < self.sys.states.len()
    }

    open spec fn snap(&self) -> Ckpt {
        self.cur
    }

    open spec fn snap_wf(&self, s: Ckpt) -> bool {
        self.sys.wf() && s.state < self.sys.states.len()
    }

    open spec fn same_sys(&self, o: &RewriteEnv) -> bool {
        self.sys == o.sys
    }

    open spec fn with_snap(&self, s: Ckpt) -> RewriteEnv {
        RewriteEnv { sys: self.sys, cur: s }
    }

    open spec fn action_space(&self) -> usize {
        (self.sys.num_rewrites + 1) as usize
    }

    open spec fn step_spec(&self, a: usize) -> (RewriteEnv, i64, bool, StepInfo) {
        if a == 0 {
            (
                *self,
                0i64,
                true,
                StepInfo { best_cost: self.cur.best_cost, saturated: false },
            )
        } else {
            let here = self.cur.state as int;
            let next = self.sys.states[here].succs[a - 1];
            let reward = self.sys.states[here].cost - self.sys.states[next as int].cost;
            let nbest = if self.sys.states[next as int].cost < self.cur.best_cost {
                self.sys.states[next as int].cost
            } else {
                self.cur.best_cost
            };
            (
                RewriteEnv { sys: self.sys, cur: Ckpt { state: next, best_cost: nbest } },
                reward as i64,
                false,
                StepInfo { best_cost: nbest, saturated: next == self.cur.state },
            )
        }
    }

    open spec fn reset_snap(&self) -> Ckpt {
        Ckpt { state: 0, best_cost: self.sys.states[0].cost }
    }

    proof fn lemma_canon(&self)
    {
        assert(*self == self.with_snap(self.snap()));
    }

    proof fn lemma_with_snap(&self, s: Ckpt)
    {
    }

    proof fn lemma_sys(&self, o: &RewriteEnv)
    {
        assert forall|s: Ckpt| #[trigger] o.with_snap(s) == self.with_snap(s) by {
            assert(o.with_snap(s) =~= self.with_snap(s));
        }
    }

    fn get_action_space(&self) -> (n: usize)
    {
        self.sys.num_rewrites + 1
    }

    fn checkpoint(&self) -> (s: Ckpt)
    {
        self.cur
    }

    fn clone_snap(&self, s: &Ckpt) -> (r: Ckpt)
    {
        *s
    }

    fn restore(&mut self, s: &Ckpt)
    {
        self.cur = *s;
        proof {
            assert(*self =~= old(self).with_snap(*s));
        }
    }

    fn reset(&mut self)
    {
        let first_cost = self.sys.states[0].cost;
        self.cur = Ckpt { state: 0, best_cost: first_cost };
        proof {
            assert(*self =~= old(self).with_snap(old(self).reset_snap()));
        }
    }

    fn step(&mut self, a: usize) -> (res: (i64, bool, StepInfo))
    {
        if a == 0 {
            (0i64, true, StepInfo { best_cost: self.cur.best_cost, saturated: false })
        } else {
            let here = self.cur.state as usize;
            let next = self.sys.states[here].succs[a - 1];
            let here_cost = self.sys.states[here].cost;
            let next_cost = self.sys.states[next as usize].cost;
            let reward: i64 = here_cost as i64 - next_cost as i64;
            let nbest = if next_cost < self.cur.best_cost {
                next_cost
            } else {
                self.cur.best_cost
            };
            let saturated = next == self.cur.state;
            self.cur = Ckpt { state: next, best_cost: nbest };
            proof {
                assert(*self =~= old(self).step_spec(a).0);
            }
            (reward, false, StepInfo { best_cost: nbest, saturated })
        }
    }
}

} // verus!
