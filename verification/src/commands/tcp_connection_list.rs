//! Listing a node's tcp connections as a table.

use vstd::prelude::*;

verus! {

use crate::commands::ApiRequest;
use crate::commands::Method;
use crate::commands::NodeOpts;

/// Lists the tcp connections of a node.
#[derive(Debug, Clone)]
pub struct ListCommand {
    /// Which node to ask.
    pub node_opts: NodeOpts,
}

impl ListCommand {
    /// The request this command sends: a read of the node's tcp
    /// connection list.
    pub fn run(self) -> (r: (String, ApiRequest))
        ensures
            r.0@ == self.node_opts.api_node@,
            r.1.method == Method::Get,
            r.1.path@ == "/node/tcp/connection"@,
            r.1.body is None,
    {
        let req = ApiRequest {
            method: Method::Get,
            path: String::from_str("/node/tcp/connection"),
            body: None,
        };
        (self.node_opts.api_node, req)
    }
}

/// One reported transport: type, mode, bound address and id, as text.
#[derive(Debug, Clone)]
pub struct TransportStatus {
    /// The transport type.
    pub tt: String,
    /// The transport mode.
    pub tm: String,
    /// The bound payload address.
    pub payload: String,
    /// The transport id.
    pub tid: String,
}

/// The table rows of a connection listing: id, type, mode, address.
pub fn transport_table_rows(list: &Vec<TransportStatus>) -> (r: Vec<Vec<String>>)
    ensures
        r@.len() == list@.len(),
        forall|i: int|
            0 <= i < list@.len() ==> (#[trigger] r@[i])@.len() == 4 && r@[i]@[0]@
                == list@[i].tid@ && r@[i]@[1]@ == list@[i].tt@ && r@[i]@[2]@ == list@[i].tm@
                && r@[i]@[3]@ == list@[i].payload@,
{
    let mut out: Vec<Vec<String>> = Vec::new();
    let mut i: usize = 0;
    while i < list.len()
        invariant
            i <= list@.len(),
            out@.len() == i,
            forall|j: int|
                0 <= j < i ==> (#[trigger] out@[j])@.len() == 4 && out@[j]@[0]@
                    == list@[j].tid@ && out@[j]@[1]@ == list@[j].tt@ && out@[j]@[2]@
                    == list@[j].tm@ && out@[j]@[3]@ == list@[j].payload@,
        decreases list@.len() - i,
    {
        let mut row: Vec<String> = Vec::new();
        row.push(list[i].tid.clone());
        row.push(list[i].tt.clone());
        row.push(list[i].tm.clone());
        row.push(list[i].payload.clone());
        out.push(row);
        i = i + 1;
    }
    out
}

} // verus!
