//! Graph storage: append-only node and edge arenas linked through per-node
//! outgoing-edge chains.

use vstd::prelude::*;
use crate::attributes::AttributeMap;
use crate::edge;
use crate::node;

verus! {

/// A property graph.  Nodes and edges live in append-only arenas and refer
/// to each other by index; indices stay valid for the graph's lifetime.
pub struct Graph {
    pub nodes: Vec<node::Node>,
    pub edges: Vec<edge::Edge>,
}

/// Measure for walking an outgoing-edge chain: chains are built by
/// prepending, so each link leads to a strictly smaller edge index.
pub open spec fn chain_measure(cur: Option<edge::Index>) -> int {
    match cur {
        Some(j) => j + 1,
        None => 0,
    }
}

/// The edge indices reachable from `cur` along `next_outgoing_edge` links.
/// The definition is guarded so that it is total: it stops rather than
/// follow a link that is out of bounds or fails to decrease, which cannot
/// happen in a well-formed graph.
pub open spec fn edge_chain(g: Graph, cur: Option<edge::Index>) -> Seq<edge::Index>
    decreases chain_measure(cur),
{
    match cur {
        None => Seq::empty(),
        Some(j) => {
            if j < g.edges@.len() {
                match g.edges@[j as int].next_outgoing_edge {
                    Some(k) => {
                        if k < j {
                            seq![j] + edge_chain(g, Some(k))
                        } else {
                            seq![j]
                        }
                    },
                    None => seq![j],
                }
            } else {
                Seq::empty()
            }
        },
    }
}

impl Graph {
    /// The edge at `i` points at an existing node and at a strictly earlier
    /// edge of its chain, if any.
    pub open spec fn edge_ok(self, i: int) -> bool {
        &&& self.edges@[i].target < self.nodes@.len()
        &&& match self.edges@[i].next_outgoing_edge {
            Some(k) => k < i,
            None => true,
        }
    }

    /// The node at `n` starts its chain at an existing edge, if any.
    pub open spec fn node_ok(self, n: int) -> bool {
        match self.nodes@[n].first_outgoing_edge {
            Some(k) => k < self.edges@.len(),
            None => true,
        }
    }

    /// Well-formedness: every stored index is in bounds and every chain link
    /// decreases, which is exactly what the construction API maintains.
    pub open spec fn wf(self) -> bool {
        &&& forall|i: int| 0 <= i < self.edges@.len() ==> #[trigger] self.edge_ok(i)
        &&& forall|n: int| 0 <= n < self.nodes@.len() ==> #[trigger] self.node_ok(n)
    }

    /// Appends a node and returns its index.
    pub fn add_node(&mut self, identifier: String, attributes: Option<AttributeMap>) -> (index:
        node::Index)
        ensures
            index == old(self).nodes@.len(),
            final(self).edges@ == old(self).edges@,
            final(self).nodes@.len() == old(self).nodes@.len() + 1,
            forall|i: int|
                0 <= i < old(self).nodes@.len() ==> final(self).nodes@[i] == old(self).nodes@[i],
            final(self).nodes@[index as int].identifier == identifier,
            final(self).nodes@[index as int].attributes == attributes,
            final(self).nodes@[index as int].first_outgoing_edge is None,
            old(self).wf() ==> final(self).wf(),
    {
        let index = self.nodes.len();
        self.nodes.push(
            node::Node { identifier: identifier, first_outgoing_edge: None, attributes: attributes },
        );
        proof {
            if old(self).wf() {
                assert forall|i: int| 0 <= i < self.edges@.len() implies #[trigger] self.edge_ok(
                    i,
                ) by {
                    assert(old(self).edge_ok(i));
                }
                assert forall|n: int| 0 <= n < self.nodes@.len() implies #[trigger] self.node_ok(
                    n,
                ) by {
                    if n < old(self).nodes@.len() {
                        assert(old(self).node_ok(n));
                    }
                }
            }
        }
        index
    }

    /// Appends an edge from `source` to `target` and prepends it onto
    /// `source`'s outgoing chain, so that the newest edge is enumerated
    /// first.
    pub fn add_edge(
        &mut self,
        source: node::Index,
        target: node::Index,
        identifier: String,
        attributes: Option<AttributeMap>,
    )
        requires
            source < old(self).nodes@.len(),
            target < old(self).nodes@.len(),
        ensures
            final(self).edges@.len() == old(self).edges@.len() + 1,
            forall|i: int|
                0 <= i < old(self).edges@.len() ==> final(self).edges@[i] == old(self).edges@[i],
            final(self).edges@[old(self).edges@.len() as int].identifier == identifier,
            final(self).edges@[old(self).edges@.len() as int].target == target,
            final(self).edges@[old(self).edges@.len() as int].attributes == attributes,
            final(self).edges@[old(self).edges@.len() as int].next_outgoing_edge == old(
                self,
            ).nodes@[source as int].first_outgoing_edge,
            final(self).nodes@.len() == old(self).nodes@.len(),
            forall|n: int|
                0 <= n < old(self).nodes@.len() && n != source ==> final(self).nodes@[n] == old(
                    self,
                ).nodes@[n],
            final(self).nodes@[source as int].identifier == old(
                self,
            ).nodes@[source as int].identifier,
            final(self).nodes@[source as int].attributes == old(
                self,
            ).nodes@[source as int].attributes,
            final(self).nodes@[source as int].first_outgoing_edge == Some(
                old(self).edges@.len() as edge::Index,
            ),
            old(self).wf() ==> final(self).wf(),
            old(self).wf() ==> edge_chain(*final(self), Some(old(self).edges@.len() as edge::Index))
                == seq![old(self).edges@.len() as edge::Index] + edge_chain(
                *old(self),
                old(self).nodes@[source as int].first_outgoing_edge,
            ),
    {
        let edge_index = self.edges.len();
        let next = self.nodes[source].first_outgoing_edge;
        self.edges.push(
            edge::Edge {
                identifier: identifier,
                target: target,
                next_outgoing_edge: next,
                attributes: attributes,
            },
        );
        self.nodes[source].first_outgoing_edge = Some(edge_index);
        proof {
            if old(self).wf() {
                assert forall|i: int| 0 <= i < self.edges@.len() implies #[trigger] self.edge_ok(
                    i,
                ) by {
                    if i < old(self).edges@.len() {
                        assert(old(self).edge_ok(i));
                    } else {
                        assert(old(self).node_ok(source as int));
                    }
                }
                assert forall|n: int| 0 <= n < self.nodes@.len() implies #[trigger] self.node_ok(
                    n,
                ) by {
                    if n != source {
                        assert(old(self).node_ok(n));
                    }
                }
                match next {
                    Some(k) => {
                        assert(old(self).node_ok(source as int));
                        lemma_edge_chain_frame(*old(self), *self, Some(k));
                    },
                    None => {},
                }
            }
        }
    }

    /// Collects the outgoing edge indices of `node_index`, newest first.
    pub fn edges_for_node(&self, node_index: node::Index) -> (r: Vec<edge::Index>)
        requires
            self.wf(),
            node_index < self.nodes@.len(),
        ensures
            r@ == edge_chain(*self, self.nodes@[node_index as int].first_outgoing_edge),
    {
        let mut edge_indexes: Vec<edge::Index> = Vec::new();
        let ghost first = self.nodes@[node_index as int].first_outgoing_edge;
        proof {
            assert(self.node_ok(node_index as int));
        }
        let mut current = self.nodes[node_index].first_outgoing_edge;
        loop
            invariant
                self.wf(),
                (match current {
                    Some(j) => j < self.edges@.len(),
                    None => true,
                }),
                edge_chain(*self, first) == edge_indexes@ + edge_chain(*self, current),
            ensures
                current is None,
                edge_chain(*self, first) == edge_indexes@ + edge_chain(*self, current),
            decreases chain_measure(current),
        {
            match current {
                None => {
                    break ;
                },
                Some(j) => {
                    edge_indexes.push(j);
                    proof {
                        assert(self.edge_ok(j as int));
                        assert((edge_indexes@ + edge_chain(
                            *self,
                            self.edges@[j as int].next_outgoing_edge,
                        )) =~= (edge_indexes@.drop_last() + edge_chain(*self, current)));
                    }
                    current = self.edges[j].next_outgoing_edge;
                },
            }
        }
        proof {
            assert(edge_indexes@ + edge_chain(*self, current) =~= edge_indexes@);
        }
        edge_indexes
    }

    /// Returns an iterator-like cursor over the successors of `source`.
    pub fn successors(&self, source: node::Index) -> (r: Successors<'_>)
        requires
            source < self.nodes@.len(),
        ensures
            *r.graph == *self,
            r.current_edge_index == self.nodes@[source as int].first_outgoing_edge,
    {
        let first_outgoing_edge = self.nodes[source].first_outgoing_edge;
        Successors { graph: self, current_edge_index: first_outgoing_edge }
    }
}

/// A cursor over the successor nodes of one source node, yielding targets in
/// the order of that node's outgoing-edge chain (newest edge first).
pub struct Successors<'graph> {
    pub graph: &'graph Graph,
    pub current_edge_index: Option<edge::Index>,
}

impl<'graph> Successors<'graph> {
    /// The cursor either rests or points at an existing edge of a
    /// well-formed graph.
    pub open spec fn wf(self) -> bool {
        &&& self.graph.wf()
        &&& match self.current_edge_index {
            Some(j) => j < self.graph.edges@.len(),
            None => true,
        }
    }

    /// Yields the target of the current edge and advances along the chain,
    /// or reports that the chain is exhausted.
    pub fn next(&mut self) -> (r: Option<node::Index>)
        requires
            old(self).wf(),
        ensures
            final(self).wf(),
            final(self).graph == old(self).graph,
            (match old(self).current_edge_index {
                None => r is None && final(self).current_edge_index is None,
                Some(j) => r == Some(old(self).graph.edges@[j as int].target)
                    && final(self).current_edge_index
                    == old(self).graph.edges@[j as int].next_outgoing_edge,
            }),
    {
        match self.current_edge_index {
            None => None,
            Some(edge_num) => {
                proof {
                    assert(self.graph.edge_ok(edge_num as int));
                }
                let target = self.graph.edges[edge_num].target;
                self.current_edge_index = self.graph.edges[edge_num].next_outgoing_edge;
                Some(target)
            },
        }
    }
}

/// Two graphs that agree on an initial segment of their edge arenas have the
/// same chains inside that segment.
proof fn lemma_edge_chain_frame(g1: Graph, g2: Graph, cur: Option<edge::Index>)
    requires
        g1.edges@.len() <= g2.edges@.len(),
        forall|i: int| 0 <= i < g1.edges@.len() ==> g2.edges@[i] == g1.edges@[i],
        (match cur {
            Some(j) => j < g1.edges@.len(),
            None => true,
        }),
    ensures
        edge_chain(g2, cur) == edge_chain(g1, cur),
    decreases chain_measure(cur),
{
    match cur {
        None => {},
        Some(j) => {
            match g1.edges@[j as int].next_outgoing_edge {
                Some(k) => {
                    if k < j {
                        lemma_edge_chain_frame(g1, g2, Some(k));
                    }
                },
                None => {},
            }
        },
    }
}

/// Every index in a chain refers to an existing edge.
pub proof fn lemma_edge_chain_in_bounds(g: Graph, cur: Option<edge::Index>)
    ensures
        forall|t: int|
            0 <= t < edge_chain(g, cur).len() ==> #[trigger] edge_chain(g, cur)[t]
                < g.edges@.len(),
    decreases chain_measure(cur),
{
    match cur {
        None => {},
        Some(j) => {
            if j < g.edges@.len() {
                match g.edges@[j as int].next_outgoing_edge {
                    Some(k) => {
                        if k < j {
                            lemma_edge_chain_in_bounds(g, Some(k));
                            assert forall|t: int|
                                0 <= t < edge_chain(g, cur).len() implies #[trigger] edge_chain(
                                g,
                                cur,
                            )[t] < g.edges@.len() by {
                                if t > 0 {
                                    assert(edge_chain(g, cur)[t] == edge_chain(g, Some(k))[t - 1]);
                                }
                            }
                        }
                    },
                    None => {},
                }
            }
        },
    }
}

/// Outgoing edges are enumerated newest first: along a chain the edge
/// indices strictly decrease, which is exactly the reverse of the order in
/// which `add_edge` inserted them.
pub proof fn lemma_edge_chain_descending(g: Graph, cur: Option<edge::Index>)
    ensures
        forall|s: int, t: int|
            0 <= s < t < edge_chain(g, cur).len() ==> #[trigger] edge_chain(g, cur)[s]
                > #[trigger] edge_chain(g, cur)[t],
    decreases chain_measure(cur),
{
    match cur {
        None => {},
        Some(j) => {
            if j < g.edges@.len() {
                match g.edges@[j as int].next_outgoing_edge {
                    Some(k) => {
                        if k < j {
                            lemma_edge_chain_descending(g, Some(k));
                            lemma_edge_chain_in_bounds(g, Some(k));
                            assert forall|s: int, t: int|
                                0 <= s < t < edge_chain(g, cur).len() implies #[trigger] edge_chain(
                                g,
                                cur,
                            )[s] > #[trigger] edge_chain(g, cur)[t] by {
                                let tail = edge_chain(g, Some(k));
                                if s > 0 {
                                    assert(edge_chain(g, cur)[s] == tail[s - 1]);
                                    assert(edge_chain(g, cur)[t] == tail[t - 1]);
                                } else {
                                    assert(edge_chain(g, cur)[t] == tail[t - 1]);
                                    lemma_chain_head_bound(g, k, t - 1);
                                }
                            }
                        }
                    },
                    None => {},
                }
            }
        },
    }
}

/// Helper: every element of the chain from `k` is at most `k`.
proof fn lemma_chain_head_bound(g: Graph, k: edge::Index, t: int)
    requires
        0 <= t < edge_chain(g, Some(k)).len(),
    ensures
        edge_chain(g, Some(k))[t] <= k,
    decreases k,
{
    if k < g.edges@.len() {
        match g.edges@[k as int].next_outgoing_edge {
            Some(m) => {
                if m < k && t > 0 {
                    lemma_chain_head_bound(g, m, t - 1);
                }
            },
            None => {},
        }
    }
}

/// An edge index `e` hangs off node `n`: it appears in `n`'s outgoing chain.
pub open spec fn has_edge(g: Graph, n: int, e: edge::Index) -> bool {
    &&& 0 <= n < g.nodes@.len()
    &&& edge_chain(g, g.nodes@[n].first_outgoing_edge).contains(e)
}

/// `rank` witnesses that following edges strictly descends: the target of
/// every edge ranks below its source.
pub open spec fn rank_ok(g: Graph, rank: Map<int, nat>) -> bool {
    forall|n: int, e: edge::Index| #[trigger]
        has_edge(g, n, e) ==> rank[g.edges@[e as int].target as int] < rank[n]
}

/// The graph has no directed cycle: some rank decreases along every edge.
pub open spec fn acyclic(g: Graph) -> bool {
    exists|rank: Map<int, nat>| #[trigger] rank_ok(g, rank)
}

/// A fixed rank witness for an acyclic graph, used as a recursion measure by
/// the matcher and the subgraph expander.
pub open spec fn node_rank(g: Graph) -> Map<int, nat> {
    choose|rank: Map<int, nat>| #[trigger] rank_ok(g, rank)
}

/// A graph whose edges all lead from a node to a higher-numbered node has no
/// cycle.  This is the common way for a caller to discharge `acyclic` on a
/// graph it has just built.
pub proof fn lemma_forward_edges_acyclic(g: Graph)
    requires
        g.wf(),
        forall|n: int, e: edge::Index| #[trigger] has_edge(g, n, e) ==> g.edges@[e as int].target > n,
    ensures
        acyclic(g),
{
    let rank = Map::<int, nat>::new(
        |n: int| 0 <= n < g.nodes@.len(),
        |n: int| (g.nodes@.len() - n) as nat,
    );
    assert forall|n: int, e: edge::Index| #[trigger]
        has_edge(g, n, e) implies rank[g.edges@[e as int].target as int] < rank[n] by {
        lemma_edge_chain_in_bounds(g, g.nodes@[n].first_outgoing_edge);
        let chain = edge_chain(g, g.nodes@[n].first_outgoing_edge);
        let i = choose|i: int| 0 <= i < chain.len() && chain[i] == e;
        assert(chain[i] < g.edges@.len());
        assert(g.edge_ok(e as int));
    }
    assert(rank_ok(g, rank));
}

/// Every edge of a node's outgoing chain hangs off that node.
pub proof fn lemma_chain_has_edge(g: Graph, n: int)
    requires
        0 <= n < g.nodes@.len(),
    ensures
        (forall|t: int|
            0 <= t < edge_chain(g, g.nodes@[n].first_outgoing_edge).len() ==> has_edge(
                g,
                n,
                #[trigger] edge_chain(g, g.nodes@[n].first_outgoing_edge)[t],
            )),
{
    let chain = edge_chain(g, g.nodes@[n].first_outgoing_edge);
    assert forall|t: int| 0 <= t < chain.len() implies has_edge(g, n, #[trigger] chain[t]) by {
        assert(chain.contains(chain[t]));
    }
}

/// In a well-formed acyclic graph, following an edge of a node's chain leads
/// to an existing node of strictly smaller rank.
pub proof fn lemma_edge_rank_decreases(g: Graph, n: int, e: edge::Index)
    requires
        g.wf(),
        acyclic(g),
        0 <= n < g.nodes@.len(),
        has_edge(g, n, e),
    ensures
        e < g.edges@.len(),
        0 <= g.edges@[e as int].target < g.nodes@.len(),
        node_rank(g)[g.edges@[e as int].target as int] < node_rank(g)[n],
{
    assert(rank_ok(g, node_rank(g)));
    lemma_edge_chain_in_bounds(g, g.nodes@[n].first_outgoing_edge);
    let chain = edge_chain(g, g.nodes@[n].first_outgoing_edge);
    let i = choose|i: int| 0 <= i < chain.len() && chain[i] == e;
    assert(chain[i] < g.edges@.len());
    assert(g.edge_ok(e as int));
}

} // verus!
