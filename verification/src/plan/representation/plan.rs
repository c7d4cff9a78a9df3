//! Finalized plan: the relational graph and its registry.

use vstd::prelude::*;
use super::registry::Registry;
use super::relational::Graph;

verus! {

/// Logical plan ready for streaming compile or offline evaluation.
pub struct Plan {
    pub graph: Graph,
    pub registry: Registry,
}

impl Plan {
    pub fn new(graph: Graph, registry: Registry) -> (r: Plan)
        ensures
            r == (Plan { graph, registry }),
    {
        Plan { graph, registry }
    }
}

} // verus!
