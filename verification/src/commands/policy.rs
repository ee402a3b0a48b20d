//! The policy administration commands: set, get, delete and list,
//! keyed by node, resource and action.

use vstd::prelude::*;

verus! {

use crate::codec::enc_policy;
use crate::codec::encode_policy;
use crate::commands::ApiRequest;
use crate::commands::Method;
use crate::policy::Policy;
use crate::types::Action;
use crate::types::Resource;

/// Administers the policies of a node.
#[derive(Debug)]
pub struct PolicyCommand {
    /// What to do.
    pub subcommand: PolicySubcommand,
}

/// One policy administration operation.
#[derive(Debug)]
pub enum PolicySubcommand {
    /// Store a policy for (resource, action) on a node.
    SetPolicy {
        /// The node to ask.
        at: String,
        /// The resource.
        resource: Resource,
        /// The action.
        action: Action,
        /// The policy to store.
        policy: Policy,
    },
    /// Read the policy of (resource, action) from a node.
    GetPolicy {
        /// The node to ask.
        at: String,
        /// The resource.
        resource: Resource,
        /// The action.
        action: Action,
    },
    /// Remove the policy of (resource, action) from a node.
    DeletePolicy {
        /// The node to ask.
        at: String,
        /// The resource.
        resource: Resource,
        /// The action.
        action: Action,
    },
    /// List every policy of a resource on a node.
    ListPolicies {
        /// The node to ask.
        at: String,
        /// The resource.
        resource: Resource,
    },
}

/// The request path of one (resource, action) policy.
pub fn policy_path(r: &Resource, a: &Action) -> (p: String)
    ensures
        p@ == "/policy/"@ + r@ + "/"@ + a@,
{
    let mut p = String::from_str("/policy/");
    p.append(r.as_str());
    p.append("/");
    p.append(a.as_str());
    p
}

impl PolicyCommand {
    /// The node to address and the request this command sends: a post
    /// of the encoded policy, a read, a delete, or a listing read of
    /// all policies under the resource.
    pub fn run(self) -> (r: (String, ApiRequest))
        ensures
            match self.subcommand {
                PolicySubcommand::SetPolicy { at, resource, action, policy } => r.0@ == at@
                    && r.1.method == Method::Post && r.1.path@ == "/policy/"@ + resource@ + "/"@
                    + action@ && (r.1.body matches Some(b) && b@ == enc_policy(policy@)),
                PolicySubcommand::GetPolicy { at, resource, action } => r.0@ == at@ && r.1.method
                    == Method::Get && r.1.path@ == "/policy/"@ + resource@ + "/"@ + action@
                    && r.1.body is None,
                PolicySubcommand::DeletePolicy { at, resource, action } => r.0@ == at@ && r.1.method
                    == Method::Delete && r.1.path@ == "/policy/"@ + resource@ + "/"@ + action@
                    && r.1.body is None,
                PolicySubcommand::ListPolicies { at, resource } => r.0@ == at@ && r.1.method
                    == Method::Get && r.1.path@ == "/policy/"@ + resource@ && r.1.body is None,
            },
    {
        match self.subcommand {
            PolicySubcommand::SetPolicy { at, resource, action, policy } => {
                let body = encode_policy(&policy);
                let req = ApiRequest {
                    method: Method::Post,
                    path: policy_path(&resource, &action),
                    body: Some(body),
                };
                (at, req)
            },
            PolicySubcommand::GetPolicy { at, resource, action } => {
                let req = ApiRequest {
                    method: Method::Get,
                    path: policy_path(&resource, &action),
                    body: None,
                };
                (at, req)
            },
            PolicySubcommand::DeletePolicy { at, resource, action } => {
                let req = ApiRequest {
                    method: Method::Delete,
                    path: policy_path(&resource, &action),
                    body: None,
                };
                (at, req)
            },
            PolicySubcommand::ListPolicies { at, resource } => {
                let mut p = String::from_str("/policy/");
                p.append(resource.as_str());
                let req = ApiRequest { method: Method::Get, path: p, body: None };
                (at, req)
            },
        }
    }
}

} // verus!
