use vstd::prelude::*;

verus! {

/// Side information returned by one environment step: the best cost seen so
/// far on this line of exploration, and whether the step is known to have
/// saturated (no further rewrite can improve the subtree).
#[derive(Clone, Copy, PartialEq, Eq, Structural, Debug)]
pub struct StepInfo {
    pub best_cost: u32,
    pub saturated: bool,
}

/// The checkpointable rewrite environment the planner drives.
///
/// An environment value is determined by an immutable rewrite system and a
/// restorable current state (its snapshot).  `with_snap` is the ghost
/// canonical form: the same system with the given snapshot as current state.
/// Everything the search needs of an environment — that checkpoints restore
/// exactly, that stepping is a function of system, snapshot and action, and
/// that workers holding an environment with the same system see identical
/// outcomes — follows from the three lemma obligations below.
pub trait Env: Sized {
    type Snap;

    /// The environment is well formed.
    spec fn wf(&self) -> bool;

    /// The snapshot describing the current restorable state.
    spec fn snap(&self) -> Self::Snap;

    /// `s` is a snapshot this environment's system can restore.
    spec fn snap_wf(&self, s: Self::Snap) -> bool;

    /// Both environments wrap the same immutable rewrite system.
    spec fn same_sys(&self, o: &Self) -> bool;

    /// This environment's system with current state `s`.
    spec fn with_snap(&self, s: Self::Snap) -> Self;

    /// Number of legal actions at the current state (a designated stop
    /// action included).
    spec fn action_space(&self) -> usize;

    /// The outcome of applying action `a`: successor environment, reward,
    /// terminal flag, and step information.
    spec fn step_spec(&self, a: usize) -> (Self, i64, bool, StepInfo);

    /// The snapshot `reset` re-initializes to.
    spec fn reset_snap(&self) -> Self::Snap;

    /// An environment is its system together with its snapshot, systems are
    /// their own system, and a well-formed environment always offers at
    /// least the stop action.
    proof fn lemma_canon(&self)
        ensures
            *self == self.with_snap(self.snap()),
            self.same_sys(self),
            self.wf() ==> self.action_space() >= 1,
            self.wf() ==> self.snap_wf(self.snap()),
    ;

    /// Re-basing on a snapshot keeps the system and yields that snapshot.
    proof fn lemma_with_snap(&self, s: Self::Snap)
        ensures
            self.with_snap(s).snap() == s,
            self.with_snap(s).same_sys(self),
            self.snap_wf(s) ==> self.with_snap(s).wf(),
            forall|t: Self::Snap| self.with_snap(s).snap_wf(t) == self.snap_wf(t),
            self.with_snap(s).action_space() == self.action_space(),
    ;

    /// Two environments over one system agree on everything the system
    /// determines.
    proof fn lemma_sys(&self, o: &Self)
        requires
            self.same_sys(o),
        ensures
            o.same_sys(self),
            forall|s: Self::Snap| #[trigger] o.with_snap(s) == self.with_snap(s),
            o.reset_snap() == self.reset_snap(),
    ;

    fn get_action_space(&self) -> (n: usize)
        requires
            self.wf(),
        ensures
            n == self.action_space(),
    ;

    /// Capture the current state without mutating it.
    fn checkpoint(&self) -> (s: Self::Snap)
        requires
            self.wf(),
        ensures
            s == self.snap(),
            self.snap_wf(s),
    ;

    /// Duplicate a snapshot; the copy restores to the same state.
    fn clone_snap(&self, s: &Self::Snap) -> (r: Self::Snap)
        ensures
            r == *s,
    ;

    /// Restore exploration from a snapshot, independent of how the
    /// environment was left.
    fn restore(&mut self, s: &Self::Snap)
        requires
            old(self).wf(),
            old(self).snap_wf(*s),
        ensures
            *final(self) == old(self).with_snap(*s),
            final(self).wf(),
    ;

    /// Re-initialize to the base graph and base cost.
    fn reset(&mut self)
        requires
            old(self).wf(),
        ensures
            *final(self) == old(self).with_snap(old(self).reset_snap()),
            final(self).wf(),
    ;

    /// Apply one rewrite (or the stop action).  This is the only operation
    /// that advances the environment's state.
    fn step(&mut self, a: usize) -> (res: (i64, bool, StepInfo))
        requires
            old(self).wf(),
            a < old(self).action_space(),
        ensures
            *final(self) == old(self).step_spec(a).0,
            res.0 == old(self).step_spec(a).1,
            res.1 == old(self).step_spec(a).2,
            res.2 == old(self).step_spec(a).3,
            final(self).wf(),
            final(self).same_sys(old(self)),
    ;
}

/// Transitivity of sharing a system, derived from the canonical form.
pub proof fn lemma_sys_trans<E: Env>(a: &E, b: &E, c: &E)
    requires
        a.same_sys(b),
        b.same_sys(c),
    ensures
        a.same_sys(c),
{
    a.lemma_canon();
    a.lemma_sys(b);
    b.lemma_sys(c);
    assert(b.with_snap(a.snap()) == a.with_snap(a.snap()));
    assert(c.with_snap(a.snap()) == b.with_snap(a.snap()));
    c.lemma_with_snap(a.snap());
    assert(c.with_snap(a.snap()).same_sys(c));
    assert(*a == c.with_snap(a.snap()));
}

pub proof fn lemma_sys_sym<E: Env>(a: &E, b: &E)
    requires
        a.same_sys(b),
    ensures
        b.same_sys(a),
{
    a.lemma_sys(b);
}

/// Environments over one system restore the same snapshots.
pub proof fn lemma_sys_snap_wf<E: Env>(a: &E, b: &E, s: E::Snap)
    requires
        a.same_sys(b),
    ensures
        a.snap_wf(s) == b.snap_wf(s),
{
    a.lemma_sys(b);
    b.lemma_canon();
    assert(*b == b.with_snap(b.snap()));
    assert(b.with_snap(b.snap()) == a.with_snap(b.snap()));
    a.lemma_with_snap(b.snap());
}

/// Environments over one system offer the same number of actions.
pub proof fn lemma_sys_action_space<E: Env>(a: &E, b: &E)
    requires
        a.same_sys(b),
    ensures
        a.action_space() == b.action_space(),
{
    a.lemma_sys(b);
    b.lemma_canon();
    a.lemma_canon();
    assert(*b == a.with_snap(b.snap()));
    a.lemma_with_snap(b.snap());
    a.lemma_with_snap(a.snap());
}

} // verus!
