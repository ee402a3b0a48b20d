//! Listing the projects of a space.

use vstd::prelude::*;

verus! {

use crate::commands::CloudOpts;

/// Lists projects through the cloud.
#[derive(Debug, Clone)]
pub struct ListCommand {
    /// Where the cloud lives.
    pub cloud_opts: CloudOpts,
}

/// What a project listing asks for.
#[derive(Debug)]
pub struct ProjectListPlan {
    /// The route to the cloud node.
    pub route: String,
}

impl ListCommand {
    /// The plan this command stands for.
    pub fn run(self) -> (r: ProjectListPlan)
        ensures
            r.route@ == self.cloud_opts.route@,
    {
        ProjectListPlan { route: self.cloud_opts.route }
    }
}

} // verus!
