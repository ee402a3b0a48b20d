//! Listing a node's secure channel listeners.

use vstd::prelude::*;

verus! {

use crate::commands::NodeOpts;

/// Lists the secure channel listeners of a node.
#[derive(Debug, Clone)]
pub struct ListCommand {
    /// Which node to ask.
    pub node_opts: NodeOpts,
}

/// What a listener listing asks of which node.
#[derive(Debug)]
pub struct ListenerListPlan {
    /// The node to ask.
    pub node: String,
}

impl ListCommand {
    /// The plan this command stands for.
    pub fn run(self) -> (r: ListenerListPlan)
        ensures
            r.node@ == self.node_opts.api_node@,
    {
        ListenerListPlan { node: self.node_opts.api_node }
    }
}

/// The printed report of a listener listing: a heading naming the node,
/// then one indented line per listener address.
pub fn format_listener_lines(node: &String, addrs: &Vec<String>) -> (r: Vec<String>)
    ensures
        r@.len() == addrs@.len() + 1,
        r@[0]@ == "Secure channel listeners for node `"@ + node@ + "`:"@,
        forall|i: int| 0 <= i < addrs@.len() ==> (#[trigger] r@[i + 1])@ == "  "@ + addrs@[i]@,
{
    let mut out: Vec<String> = Vec::new();
    let mut head = String::from_str("Secure channel listeners for node `");
    head.append(node.as_str());
    head.append("`:");
    out.push(head);
    let mut i: usize = 0;
    while i < addrs.len()
        invariant
            i <= addrs@.len(),
            out@.len() == i + 1,
            out@[0]@ == "Secure channel listeners for node `"@ + node@ + "`:"@,
            forall|j: int| 0 <= j < i ==> (#[trigger] out@[j + 1])@ == "  "@ + addrs@[j]@,
        decreases addrs@.len() - i,
    {
        let mut line = String::from_str("  ");
        line.append(addrs[i].as_str());
        out.push(line);
        i = i + 1;
    }
    out
}

} // verus!
