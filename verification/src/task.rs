use vstd::prelude::*;

verus! {

/// A lightweight copy of a node's shape, carried by an expansion task so
/// the worker can pick an untried action without touching the tree.
pub struct NodeStub {
    pub action_count: usize,
    pub tried: Vec<bool>,
}

impl NodeStub {
    pub open spec fn wf(self) -> bool {
        1 <= self.action_count && self.tried.len() == self.action_count
    }

    /// Some action of the node is still untried.
    pub open spec fn has_untried(self) -> bool {
        exists|a: int| 0 <= a < self.action_count && !(#[trigger] self.tried[a])
    }
}

/// An expansion request: the checkpoint to resume from and the shape of the
/// node to expand.  The orchestrator owns it until it is handed to a pool.
pub struct ExpTask<S> {
    pub checkpoint_data: S,
    pub shallow_copy_node: NodeStub,
}

/// A simulation request: the checkpoint produced by the expansion, the
/// action that was expanded (already applied to the checkpoint), and the
/// bookkeeping the orchestrator needs when the result returns.
pub struct SimTask<S> {
    pub checkpoint_data: S,
    pub action: usize,
    pub saving_idx: u32,
    pub action_applied: bool,
    pub child_saturated: bool,
}

/// The tagged result of one completed task.  `new_checkpoint` is absent
/// exactly when the expanded action reached a terminal state.
pub enum Reply<S> {
    DoneExpansion {
        action: usize,
        reward: i64,
        done: bool,
        child_saturated: bool,
        new_checkpoint: Option<S>,
        saving_idx: u32,
        task_idx: u32,
    },
    DoneSimulation { task_idx: u32, accu_reward: i64 },
}

} // verus!
