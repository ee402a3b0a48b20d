//! Listing spaces.

use vstd::prelude::*;

verus! {

use crate::commands::CloudOpts;

/// Lists spaces through the cloud.
#[derive(Debug, Clone)]
pub struct ListCommand {
    /// Where the cloud lives.
    pub cloud_opts: CloudOpts,
}

/// What a space listing asks for.
#[derive(Debug)]
pub struct SpaceListPlan {
    /// The route to the cloud node.
    pub route: String,
}

impl ListCommand {
    /// The plan this command stands for.
    pub fn run(self) -> (r: SpaceListPlan)
        ensures
            r.route@ == self.cloud_opts.route@,
    {
        SpaceListPlan { route: self.cloud_opts.route }
    }
}

} // verus!
