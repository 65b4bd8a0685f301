//! Nodes of a property graph.

use vstd::prelude::*;
use crate::attributes::{attributes_match, attributes_match_spec, AttributeMap};
use crate::edge;
use crate::matching::EqualityRequirement;

verus! {

/// Position of a node in its graph's node arena.
pub type Index = usize;

/// A node: an identifier, an optional attribute map, and the head of the
/// chain of its outgoing edges (the most recently added edge comes first).
pub struct Node {
    pub identifier: String,
    pub attributes: Option<AttributeMap>,
    pub first_outgoing_edge: Option<edge::Index>,
}

impl Node {
    /// Treats `self` as a query node and decides whether `node` is an
    /// attribute-compatible candidate.  Identifiers play no part in the
    /// comparison; only attributes are consulted.
    pub fn matches(&self, node: &Node, equality: &EqualityRequirement) -> (r: bool)
        ensures
            r == attributes_match_spec(self.attributes, node.attributes, *equality),
    {
        attributes_match(&self.attributes, &node.attributes, equality)
    }
}

} // verus!
