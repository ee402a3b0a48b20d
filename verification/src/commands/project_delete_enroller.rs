//! Removing an authorized enroller from a project's authority.

use vstd::prelude::*;

verus! {

use crate::commands::CloudOpts;

/// Removes an identity as authorized enroller from a project.
#[derive(Debug, Clone)]
pub struct DeleteEnrollerCommand {
    /// The project.
    pub project_id: String,
    /// The enroller identity to remove.
    pub enroller_identity_id: String,
    /// Where the project's cloud lives.
    pub cloud_opts: CloudOpts,
}

/// What an enroller removal asks for.
#[derive(Debug)]
pub struct DeleteEnrollerPlan {
    /// The project.
    pub project_id: String,
    /// The enroller identity to remove.
    pub enroller_identity_id: String,
    /// The route to the cloud node.
    pub route: String,
}

impl DeleteEnrollerCommand {
    /// The plan this command stands for.
    pub fn run(self) -> (r: DeleteEnrollerPlan)
        ensures
            r.project_id@ == self.project_id@,
            r.enroller_identity_id@ == self.enroller_identity_id@,
            r.route@ == self.cloud_opts.route@,
    {
        DeleteEnrollerPlan {
            project_id: self.project_id,
            enroller_identity_id: self.enroller_identity_id,
            route: self.cloud_opts.route,
        }
    }
}

} // verus!
