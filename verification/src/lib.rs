pub mod dfg;
pub mod env;
pub mod laws;
pub mod math;
pub mod node;
pub mod pool;
pub mod reward;
pub mod run;
pub mod sim_env;
pub mod task;
pub mod tree;
pub mod worker;
