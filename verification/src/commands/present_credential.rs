//! Presenting a credential over a route.

use vstd::prelude::*;

verus! {

use crate::commands::NodeOpts;

/// Asks a node to present its credential to a peer.
#[derive(Debug, Clone)]
pub struct PresentCredentialCommand {
    /// Which node presents.
    pub node_opts: NodeOpts,
    /// The route to present over, as address text.
    pub to: String,
    /// Whether to present without expecting one back.
    pub oneway: bool,
}

/// What a presentation asks of which node.
#[derive(Debug)]
pub struct PresentCredentialPlan {
    /// The node that presents.
    pub node: String,
    /// The route to present over.
    pub to: String,
    /// Whether to present without expecting one back.
    pub oneway: bool,
}

impl PresentCredentialCommand {
    /// The plan this command stands for.
    pub fn run(self) -> (r: PresentCredentialPlan)
        ensures
            r.node@ == self.node_opts.api_node@,
            r.to@ == self.to@,
            r.oneway == self.oneway,
    {
        PresentCredentialPlan {
            node: self.node_opts.api_node,
            to: self.to,
            oneway: self.oneway,
        }
    }
}

} // verus!
