//! Restarting a stopped node.

use vstd::prelude::*;

verus! {

/// Restarts a node by name.
#[derive(Debug, Clone)]
pub struct StartCommand {
    /// The node to restart.
    pub node_name: String,
    /// Whether the node keeps its keys in the cloud key service.
    pub aws_kms: bool,
}

/// What a restart does: kill the old process, spawn the node again
/// under its recorded settings, then query its status.
#[derive(Debug)]
pub struct StartPlan {
    /// The node to restart.
    pub node_name: String,
    /// Whether the node keeps its keys in the cloud key service.
    pub aws_kms: bool,
}

impl StartCommand {
    /// The plan this command stands for.
    pub fn run(self) -> (r: StartPlan)
        ensures
            r.node_name@ == self.node_name@,
            r.aws_kms == self.aws_kms,
    {
        StartPlan { node_name: self.node_name, aws_kms: self.aws_kms }
    }
}

} // verus!
