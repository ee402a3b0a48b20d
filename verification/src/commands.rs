//! The operator command surface: each command type carries the plain
//! values an operator gave and computes the request it stands for.
//! Sending the request, and every transport concern around it, is the
//! caller's business.

use vstd::prelude::*;

pub mod get_credential;
pub mod node_start;
pub mod policy;
pub mod present_credential;
pub mod project_delete_enroller;
pub mod project_list;
pub mod secure_channel_listener_list;
pub mod space_list;
pub mod tcp_connection_list;

verus! {

/// The method of an api request.
#[derive(Debug, Clone, Copy, PartialEq, Eq, Structural)]
pub enum Method {
    /// Read a resource.
    Get,
    /// Create or set a resource.
    Post,
    /// Remove a resource.
    Delete,
}

/// One api request: method, path, and an optional binary body.
#[derive(Debug)]
pub struct ApiRequest {
    /// The request method.
    pub method: Method,
    /// The request path.
    pub path: String,
    /// The encoded body, if the request carries one.
    pub body: Option<Vec<u8>>,
}

/// Which node a command addresses.
#[derive(Debug, Clone)]
pub struct NodeOpts {
    /// The api node name.
    pub api_node: String,
}

/// Where a cloud-routed command is sent.
#[derive(Debug, Clone)]
pub struct CloudOpts {
    /// The route to the cloud node.
    pub route: String,
}

} // verus!
