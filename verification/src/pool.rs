use vstd::prelude::*;
use crate::env::Env;
use crate::reward::Gamma;
use crate::task::{ExpTask, SimTask, Reply};
use crate::worker::{run_expansion, run_simulation, is_exp_outcome, is_sim_outcome};
use crate::env::lemma_sys_trans;

verus! {

/// Number of set flags in a sequence.
pub open spec fn count_true(s: Seq<bool>) -> int
    decreases s.len(),
{
    if s.len() == 0 {
        0
    } else {
        count_true(s.drop_last()) + if s.last() {
            1int
        } else {
            0int
        }
    }
}

pub proof fn lemma_count_true_le(s: Seq<bool>)
    ensures
        0 <= count_true(s) <= s.len(),
    decreases s.len(),
{
    if s.len() > 0 {
        lemma_count_true_le(s.drop_last());
    }
}

pub proof fn lemma_count_true_zero(s: Seq<bool>)
    requires
        forall|i: int| 0 <= i < s.len() ==> !s[i],
    ensures
        count_true(s) == 0,
    decreases s.len(),
{
    if s.len() > 0 {
        lemma_count_true_zero(s.drop_last());
    }
}

pub proof fn lemma_count_true_all(s: Seq<bool>)
    requires
        forall|i: int| 0 <= i < s.len() ==> s[i],
    ensures
        count_true(s) == s.len(),
    decreases s.len(),
{
    if s.len() > 0 {
        lemma_count_true_all(s.drop_last());
    }
}

pub proof fn lemma_count_true_update(s: Seq<bool>, i: int, v: bool)
    requires
        0 <= i < s.len(),
    ensures
        count_true(s.update(i, v)) == count_true(s) - (if s[i] {
            1int
        } else {
            0int
        }) + (if v {
            1int
        } else {
            0int
        }),
    decreases s.len(),
{
    if i == s.len() - 1 {
        assert(s.update(i, v).drop_last() =~= s.drop_last());
    } else {
        assert(s.update(i, v).drop_last() =~= s.drop_last().update(i, v));
        lemma_count_true_update(s.drop_last(), i, v);
        assert(s.update(i, v).last() == s.last());
    }
}

/// A fixed set of workers for one task kind.  A slot is busy from the
/// moment a task is assigned to it until its reply is collected; because
/// the model executes each task at assignment, a pool holds exactly one
/// finished reply per busy slot, and `get_complete_task` never has to
/// block.  Occupancy is exposed as exact counts, never as a ratio.
pub struct PoolManager<E: Env> {
    pub workers: Vec<E>,
    pub busy: Vec<bool>,
    pub completed: Vec<Reply<E::Snap>>,
    pub gamma: Gamma,
    pub max_sim_step: u32,
}

impl<E: Env> PoolManager<E> {
    /// The representative environment whose system all workers share.
    pub open spec fn rep(&self) -> E {
        self.workers[0]
    }

    pub open spec fn num(&self) -> int {
        self.workers.len() as int
    }

    pub open spec fn busy_count(&self) -> int {
        count_true(self.busy@)
    }

    pub open spec fn wf(&self) -> bool {
        &&& self.workers.len() >= 1
        &&& self.busy.len() == self.workers.len()
        &&& self.gamma.wf()
        &&& forall|i: int| 0 <= i < self.workers.len() ==> (#[trigger] self.workers[i]).wf()
        &&& forall|i: int|
            0 <= i < self.workers.len() ==> (#[trigger] self.workers[i]).same_sys(&self.rep())
        &&& self.completed.len() == self.busy_count()
    }

    pub fn new(workers: Vec<E>, gamma: Gamma, max_sim_step: u32) -> (p: PoolManager<E>)
        requires
            workers.len() >= 1,
            gamma.wf(),
            forall|i: int| 0 <= i < workers.len() ==> (#[trigger] workers[i]).wf(),
            forall|i: int| 0 <= i < workers.len() ==> (#[trigger] workers[i]).same_sys(&workers[0]),
        ensures
            p.wf(),
            p.workers == workers,
            p.busy_count() == 0,
            p.completed@.len() == 0,
            p.gamma == gamma,
            p.max_sim_step == max_sim_step,
    {
        let n = workers.len();
        let mut busy: Vec<bool> = Vec::new();
        let mut i: usize = 0;
        while i < n
            invariant
                i <= n,
                busy.len() == i,
                forall|j: int| 0 <= j < i ==> !busy[j],
            decreases n - i,
        {
            busy.push(false);
            i = i + 1;
        }
        proof {
            lemma_count_true_zero(busy@);
        }
        PoolManager { workers, busy, completed: Vec::new(), gamma, max_sim_step }
    }

    /// At least one worker is not processing a task.
    pub fn has_idle_server(&self) -> (r: bool)
        requires
            self.wf(),
        ensures
            r == (self.busy_count() < self.num()),
    {
        proof {
            lemma_count_true_le(self.busy@);
        }
        self.completed.len() < self.workers.len()
    }

    /// Every worker is busy (the high watermark that triggers draining the
    /// expansion pool).
    pub fn fully_busy(&self) -> (r: bool)
        requires
            self.wf(),
        ensures
            r == (self.busy_count() == self.num()),
    {
        proof {
            lemma_count_true_le(self.busy@);
        }
        self.completed.len() == self.workers.len()
    }

    /// More than half the workers are busy (the watermark that triggers
    /// draining the simulation pool).
    pub fn above_half(&self) -> (r: bool)
        requires
            self.wf(),
        ensures
            r == (2 * self.busy_count() > self.num()),
    {
        proof {
            lemma_count_true_le(self.busy@);
        }
        (self.completed.len() as u128) * 2 > self.workers.len() as u128
    }

    /// At least one worker is processing a task (equivalently, a finished
    /// reply is waiting).
    pub fn any_busy(&self) -> (r: bool)
        requires
            self.wf(),
        ensures
            r == (self.busy_count() > 0),
    {
        self.completed.len() > 0
    }

    /// Index of an idle slot.
    fn find_idle(&self) -> (i: usize)
        requires
            self.wf(),
            self.busy_count() < self.num(),
        ensures
            i < self.busy.len(),
            !self.busy[i as int],
    {
        let mut i: usize = 0;
        while i < self.busy.len()
            invariant
                self.wf(),
                i <= self.busy.len(),
                forall|j: int| 0 <= j < i ==> self.busy[j],
            decreases self.busy.len() - i,
        {
            if !self.busy[i] {
                return i;
            }
            i = i + 1;
        }
        proof {
            lemma_count_true_all(self.busy@);
        }
        vstd::pervasive::unreached()
    }

    /// Hand an expansion task to an idle worker, which restores the task's
    /// checkpoint and expands one untried action; the finished reply joins
    /// the completion queue and the slot stays busy until it is collected.
    pub fn assign_expansion_task(
        &mut self,
        task: ExpTask<E::Snap>,
        saving_idx: u32,
        task_idx: u32,
    )
        requires
            old(self).wf(),
            old(self).busy_count() < old(self).num(),
            old(self).rep().snap_wf(task.checkpoint_data),
            task.shallow_copy_node.wf(),
            task.shallow_copy_node.has_untried(),
            task.shallow_copy_node.action_count == old(self).rep().with_snap(
                task.checkpoint_data,
            ).action_space(),
        ensures
            final(self).wf(),
            final(self).num() == old(self).num(),
            final(self).gamma == old(self).gamma,
            final(self).max_sim_step == old(self).max_sim_step,
            final(self).busy_count() == old(self).busy_count() + 1,
            final(self).rep().same_sys(&old(self).rep()),
            final(self).completed@ == old(self).completed@.push(final(self).completed@.last()),
            is_exp_outcome(
                old(self).rep().with_snap(task.checkpoint_data),
                task.shallow_copy_node,
                saving_idx,
                task_idx,
                final(self).completed@.last(),
            ),
            (match final(self).completed@.last() {
                Reply::DoneExpansion { new_checkpoint, .. } => new_checkpoint is Some ==> old(
                    self,
                ).rep().snap_wf(new_checkpoint.unwrap()),
                _ => true,
            }),
    {
        let i = self.find_idle();
        let ghost orig = *self;
        let mut w = self.workers.remove(i);
        proof {
            w.lemma_canon();
            w.lemma_sys(&orig.rep());
            orig.rep().lemma_with_snap(w.snap());
            assert(w == orig.rep().with_snap(w.snap()));
            orig.rep().lemma_with_snap(task.checkpoint_data);
            assert(w.with_snap(task.checkpoint_data) == orig.rep().with_snap(task.checkpoint_data));
            assert(w.snap_wf(task.checkpoint_data) == orig.rep().snap_wf(task.checkpoint_data));
        }
        let rep = run_expansion(&mut w, &task, saving_idx, task_idx);
        let ghost grep = rep;
        proof {
            match grep {
                Reply::DoneExpansion { new_checkpoint, .. } => {
                    if new_checkpoint is Some {
                        crate::env::lemma_sys_snap_wf(
                            &orig.workers[i as int],
                            &orig.rep(),
                            new_checkpoint.unwrap(),
                        );
                    }
                },
                _ => {},
            }
        }
        let ghost w2 = w;
        self.workers.insert(i, w);
        self.busy.set(i, true);
        self.completed.push(rep);
        proof {
            lemma_count_true_update(orig.busy@, i as int, true);
            assert(self.busy@ =~= orig.busy@.update(i as int, true));
            assert(self.workers@ =~= orig.workers@.update(i as int, w2));
            lemma_sys_trans(&w2, &orig.workers[i as int], &orig.rep());
            assert forall|j: int| 0 <= j < self.workers.len() implies (
            #[trigger] self.workers[j]).wf() && self.workers[j].same_sys(&self.rep()) by {
                let oj = if j == i {
                    w2
                } else {
                    orig.workers[j]
                };
                assert(self.workers[j] == oj);
                assert(oj.same_sys(&orig.rep()));
                if i == 0 {
                    oj.lemma_sys(&orig.rep());
                    lemma_sys_trans(&oj, &orig.rep(), &orig.rep());
                    orig.rep().lemma_canon();
                    w2.lemma_sys(&orig.rep());
                    lemma_sys_trans(&oj, &orig.rep(), &self.rep());
                } else {
                    assert(self.rep() == orig.rep());
                }
            }
            if final(self).rep().same_sys(&old(self).rep()) {
            } else {
                final(self).rep().lemma_canon();
            }
            assert(final(self).completed@ =~= old(self).completed@.push(
                final(self).completed@.last(),
            ));
        }
    }

    /// Hand a simulation task to an idle worker, which restores the task's
    /// checkpoint and rolls out a random policy; the finished reply joins
    /// the completion queue and the slot stays busy until it is collected.
    pub fn assign_simulation_task(&mut self, task: SimTask<E::Snap>, task_idx: u32)
        requires
            old(self).wf(),
            old(self).busy_count() < old(self).num(),
            old(self).rep().snap_wf(task.checkpoint_data),
        ensures
            final(self).wf(),
            final(self).num() == old(self).num(),
            final(self).gamma == old(self).gamma,
            final(self).max_sim_step == old(self).max_sim_step,
            final(self).busy_count() == old(self).busy_count() + 1,
            final(self).rep().same_sys(&old(self).rep()),
            final(self).completed@ == old(self).completed@.push(final(self).completed@.last()),
            is_sim_outcome(
                old(self).rep().with_snap(task.checkpoint_data),
                old(self).max_sim_step,
                old(self).gamma,
                task_idx,
                final(self).completed@.last(),
            ),
            final(self).completed@.last() is DoneSimulation,
    {
        let i = self.find_idle();
        let ghost orig = *self;
        let mut w = self.workers.remove(i);
        proof {
            w.lemma_canon();
            w.lemma_sys(&orig.rep());
            orig.rep().lemma_with_snap(w.snap());
            assert(w == orig.rep().with_snap(w.snap()));
            orig.rep().lemma_with_snap(task.checkpoint_data);
            assert(w.with_snap(task.checkpoint_data) == orig.rep().with_snap(task.checkpoint_data));
            assert(w.snap_wf(task.checkpoint_data) == orig.rep().snap_wf(task.checkpoint_data));
        }
        let max_sim_step = self.max_sim_step;
        let gamma = self.gamma;
        let rep = run_simulation(&mut w, &task, max_sim_step, &gamma, task_idx);
        let ghost w2 = w;
        self.workers.insert(i, w);
        self.busy.set(i, true);
        self.completed.push(rep);
        proof {
            lemma_count_true_update(orig.busy@, i as int, true);
            assert(self.busy@ =~= orig.busy@.update(i as int, true));
            assert(self.workers@ =~= orig.workers@.update(i as int, w2));
            lemma_sys_trans(&w2, &orig.workers[i as int], &orig.rep());
            assert forall|j: int| 0 <= j < self.workers.len() implies (
            #[trigger] self.workers[j]).wf() && self.workers[j].same_sys(&self.rep()) by {
                let oj = if j == i {
                    w2
                } else {
                    orig.workers[j]
                };
                assert(self.workers[j] == oj);
                assert(oj.same_sys(&orig.rep()));
                if i == 0 {
                    oj.lemma_sys(&orig.rep());
                    lemma_sys_trans(&oj, &orig.rep(), &orig.rep());
                    orig.rep().lemma_canon();
                    w2.lemma_sys(&orig.rep());
                    lemma_sys_trans(&oj, &orig.rep(), &self.rep());
                } else {
                    assert(self.rep() == orig.rep());
                }
            }
            if final(self).rep().same_sys(&old(self).rep()) {
            } else {
                final(self).rep().lemma_canon();
            }
            assert(final(self).completed@ =~= old(self).completed@.push(
                final(self).completed@.last(),
            ));
        }
    }

    /// Collect one finished reply, in completion order, freeing its slot.
    pub fn get_complete_task(&mut self) -> (r: Reply<E::Snap>)
        requires
            old(self).wf(),
            old(self).busy_count() > 0,
        ensures
            final(self).wf(),
            r == old(self).completed@[0],
            final(self).completed@ == old(self).completed@.drop_first(),
            final(self).busy_count() == old(self).busy_count() - 1,
            final(self).num() == old(self).num(),
            final(self).workers == old(self).workers,
            final(self).rep() == old(self).rep(),
            final(self).gamma == old(self).gamma,
            final(self).max_sim_step == old(self).max_sim_step,
    {
        let i = self.find_busy();
        let r = self.completed.remove(0);
        let ghost before = self.busy@;
        self.busy.set(i, false);
        proof {
            lemma_count_true_update(before, i as int, false);
            assert(self.completed@ =~= old(self).completed@.drop_first());
        }
        r
    }

    /// Index of a busy slot.
    fn find_busy(&self) -> (i: usize)
        requires
            self.busy.len() >= 1,
            count_true(self.busy@) > 0,
        ensures
            i < self.busy.len(),
            self.busy[i as int],
    {
        let mut i: usize = 0;
        while i < self.busy.len()
            invariant
                i <= self.busy.len(),
                count_true(self.busy@) > 0,
                forall|j: int| 0 <= j < i ==> !self.busy[j],
            decreases self.busy.len() - i,
        {
            if self.busy[i] {
                return i;
            }
            i = i + 1;
        }
        proof {
            lemma_count_true_zero(self.busy@);
        }
        vstd::pervasive::unreached()
    }

    /// Drain and discard everything in flight, leaving every worker idle;
    /// used when resetting state between independent planning calls.
    pub fn wait_until_all_idle(&mut self)
        requires
            old(self).wf(),
        ensures
            final(self).wf(),
            final(self).busy_count() == 0,
            final(self).completed@.len() == 0,
            final(self).num() == old(self).num(),
            final(self).workers == old(self).workers,
            final(self).rep() == old(self).rep(),
            final(self).gamma == old(self).gamma,
            final(self).max_sim_step == old(self).max_sim_step,
    {
        self.completed.clear();
        let n = self.busy.len();
        let mut i: usize = 0;
        while i < n
            invariant
                n == self.busy.len(),
                i <= n,
                forall|j: int| 0 <= j < i ==> !self.busy[j],
                self.workers == old(self).workers,
                self.completed@.len() == 0,
                self.gamma == old(self).gamma,
                self.max_sim_step == old(self).max_sim_step,
                self.busy.len() == old(self).busy.len(),
            decreases n - i,
        {
            self.busy.set(i, false);
            i = i + 1;
        }
        proof {
            lemma_count_true_zero(self.busy@);
        }
    }

    /// Terminate the pool's workers; afterwards nothing is in flight.
    pub fn close(&mut self)
        requires
            old(self).wf(),
        ensures
            final(self).wf(),
            final(self).busy_count() == 0,
            final(self).completed@.len() == 0,
            final(self).num() == old(self).num(),
            final(self).workers == old(self).workers,
            final(self).rep() == old(self).rep(),
            final(self).gamma == old(self).gamma,
            final(self).max_sim_step == old(self).max_sim_step,
    {
        self.wait_until_all_idle();
    }
}

} // verus!
