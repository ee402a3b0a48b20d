//! Fetching a credential for a node's identity.

use vstd::prelude::*;

verus! {

use crate::commands::NodeOpts;

/// Asks a node to obtain a credential, optionally replacing one it
/// already holds.
#[derive(Debug, Clone)]
pub struct GetCredentialCommand {
    /// Which node to ask.
    pub node_opts: NodeOpts,
    /// Whether to replace an existing credential.
    pub overwrite: bool,
}

/// What a credential fetch asks of which node.
#[derive(Debug)]
pub struct GetCredentialPlan {
    /// The node to ask.
    pub node: String,
    /// Whether to replace an existing credential.
    pub overwrite: bool,
}

impl GetCredentialCommand {
    /// The plan this command stands for.
    pub fn run(self) -> (r: GetCredentialPlan)
        ensures
            r.node@ == self.node_opts.api_node@,
            r.overwrite == self.overwrite,
    {
        GetCredentialPlan { node: self.node_opts.api_node, overwrite: self.overwrite }
    }
}

} // verus!
