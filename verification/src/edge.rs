//! Edges of a property graph.

use vstd::prelude::*;
use crate::attributes::{attributes_match, attributes_match_spec, AttributeMap};
use crate::matching::EqualityRequirement;
use crate::node;

verus! {

/// Position of an edge in its graph's edge arena.
pub type Index = usize;

/// A directed edge: an identifier, an optional attribute map, the index of
/// its target node, and a link to the edge added just before it for the same
/// source node (the chains are built by prepending).
pub struct Edge {
    pub identifier: String,
    pub target: node::Index,
    pub attributes: Option<AttributeMap>,
    pub next_outgoing_edge: Option<Index>,
}

impl Edge {
    /// Treats `self` as a query edge and decides whether `edge` is an
    /// attribute-compatible candidate.  Identifiers and targets play no part
    /// in the comparison; only attributes are consulted.
    pub fn matches(&self, edge: &Edge, equality: &EqualityRequirement) -> (r: bool)
        ensures
            r == attributes_match_spec(self.attributes, edge.attributes, *equality),
    {
        attributes_match(&self.attributes, &edge.attributes, equality)
    }
}

} // verus!
