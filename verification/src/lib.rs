//! An in-memory pattern-matching engine over property graphs.
//!
//! A query graph (typed, attributed nodes and edges, attributes possibly
//! wildcarded) is bound onto a target graph, yielding every placement of the
//! query as a rooted, attribute-compatible subgraph, in ascending order of the
//! target root index.  A separate depth-first expansion collects the nodes
//! reachable from a root while refusing to cross edges with banned
//! identifiers.

use vstd::prelude::*;

pub mod attributes;
pub mod edge;
pub mod graph;
pub mod matching;
pub mod node;

use crate::graph::{
    acyclic, edge_chain, has_edge, lemma_chain_has_edge, lemma_edge_chain_in_bounds,
    lemma_edge_rank_decreases, node_rank, Graph,
};
use crate::matching::{
    lemma_match_at_shape, match_result, Component, EqualityRequirement, MatchedComponents,
};

verus! {

/// The target root at `target_root` yields a complete match: the attempt
/// succeeds and binds every query node.
pub open spec fn complete_match_at(
    query: Graph,
    target: Graph,
    query_root: int,
    target_root: int,
    equality: EqualityRequirement,
) -> bool {
    match_result(query, target, query_root, target_root, None, equality).len()
        == query.nodes@.len()
}

/// The complete matches found among target roots `0 .. n`, in ascending
/// root order.
pub open spec fn matches_upto(
    query: Graph,
    target: Graph,
    query_root: int,
    n: int,
    equality: EqualityRequirement,
) -> Seq<Seq<Component>>
    decreases n,
{
    if n <= 0 {
        Seq::empty()
    } else {
        let prefix = matches_upto(query, target, query_root, n - 1, equality);
        if complete_match_at(query, target, query_root, n - 1, equality) {
            prefix.push(match_result(query, target, query_root, n - 1, None, equality))
        } else {
            prefix
        }
    }
}

/// What `match_graph` returns: the complete matches over every target root,
/// or over the one pinned root.
pub open spec fn graph_match_results(
    query: Graph,
    target: Graph,
    query_root: int,
    fixed_root: Option<node::Index>,
    equality: EqualityRequirement,
) -> Seq<Seq<Component>> {
    match fixed_root {
        Some(r) => {
            if complete_match_at(query, target, query_root, r as int, equality) {
                seq![match_result(query, target, query_root, r as int, None, equality)]
            } else {
                Seq::empty()
            }
        },
        None => matches_upto(query, target, query_root, target.nodes@.len() as int, equality),
    }
}

/// Binds the query graph, rooted at `query_root_index`, onto the target
/// graph.  Every target node is attempted as a root (or only `fixed_root`,
/// when one is pinned), and each attempt that binds every query node
/// contributes its trace, in ascending target-root order.
///
/// Cycle policy: the query graph must be acyclic (`acyclic`), since the
/// matcher recurses along query edges without a visited set; the target
/// graph may contain cycles, because the recursion depth is bounded by the
/// query alone.
pub fn match_graph(
    query: &Graph,
    query_root_index: node::Index,
    graph: &Graph,
    fixed_root: Option<node::Index>,
    equality: &EqualityRequirement,
) -> (results: Vec<MatchedComponents>)
    requires
        query.wf(),
        graph.wf(),
        acyclic(*query),
        query_root_index < query.nodes@.len(),
        (match fixed_root {
            Some(r) => r < graph.nodes@.len(),
            None => true,
        }),
    ensures
        results@.map_values(|m: MatchedComponents| m.list@) == graph_match_results(
            *query,
            *graph,
            query_root_index as int,
            fixed_root,
            *equality,
        ),
{
    let mut results: Vec<MatchedComponents> = Vec::new();
    match fixed_root {
        Some(root_index) => {
            let attempt = matching::recusive_node_match(
                query_root_index,
                root_index,
                query,
                graph,
                None,
                equality,
            );
            if attempt.list.len() == query.nodes.len() {
                results.push(attempt);
                proof {
                    assert(results@.map_values(|m: MatchedComponents| m.list@)
                        =~= graph_match_results(
                        *query,
                        *graph,
                        query_root_index as int,
                        fixed_root,
                        *equality,
                    ));
                }
            }
        },
        None => {
            let n = graph.nodes.len();
            let mut i: usize = 0;
            while i < n
                invariant
                    query.wf(),
                    graph.wf(),
                    acyclic(*query),
                    query_root_index < query.nodes@.len(),
                    n == graph.nodes@.len(),
                    i <= n,
                    results@.map_values(|m: MatchedComponents| m.list@) == matches_upto(
                        *query,
                        *graph,
                        query_root_index as int,
                        i as int,
                        *equality,
                    ),
                decreases n - i,
            {
                let attempt = matching::recusive_node_match(
                    query_root_index,
                    i,
                    query,
                    graph,
                    None,
                    equality,
                );
                if attempt.list.len() == query.nodes.len() {
                    let ghost previous = results@;
                    results.push(attempt);
                    proof {
                        assert(results@.map_values(|m: MatchedComponents| m.list@)
                            =~= previous.map_values(|m: MatchedComponents| m.list@).push(
                            attempt.list@,
                        ));
                    }
                }
                i = i + 1;
            }
        },
    }
    results
}

/// Helper for the completeness law, by induction over the scanned roots.
proof fn lemma_matches_upto_complete(
    query: Graph,
    target: Graph,
    query_root: int,
    n: int,
    equality: EqualityRequirement,
)
    ensures
        forall|i: int|
            0 <= i < matches_upto(query, target, query_root, n, equality).len() ==> (
            #[trigger] matches_upto(query, target, query_root, n, equality)[i]).len()
                == query.nodes@.len(),
    decreases n,
{
    if n > 0 {
        lemma_matches_upto_complete(query, target, query_root, n - 1, equality);
        let prefix = matches_upto(query, target, query_root, n - 1, equality);
        let whole = matches_upto(query, target, query_root, n, equality);
        assert forall|i: int| 0 <= i < whole.len() implies (#[trigger] whole[i]).len()
            == query.nodes@.len() by {
            if i < prefix.len() {
                assert(whole[i] == prefix[i]);
            }
        }
    }
}

/// Completeness law: every trace a graph match returns binds exactly one
/// component per query node; no shorter trace is ever returned.
pub proof fn lemma_results_complete(
    query: Graph,
    target: Graph,
    query_root: int,
    fixed_root: Option<node::Index>,
    equality: EqualityRequirement,
)
    ensures
        forall|i: int|
            0 <= i < graph_match_results(query, target, query_root, fixed_root, equality).len()
                ==> (#[trigger] graph_match_results(
                query,
                target,
                query_root,
                fixed_root,
                equality,
            )[i]).len() == query.nodes@.len(),
{
    match fixed_root {
        Some(_) => {},
        None => {
            lemma_matches_upto_complete(
                query,
                target,
                query_root,
                target.nodes@.len() as int,
                equality,
            );
        },
    }
}

/// Helper for the ordering law: among roots `0 .. n` every recorded trace
/// starts with the component of its own root, roots stay below `n`, and the
/// recorded traces appear in ascending root order.
proof fn lemma_matches_upto_shape(
    query: Graph,
    target: Graph,
    query_root: int,
    n: int,
    equality: EqualityRequirement,
)
    requires
        query.wf(),
        acyclic(query),
        0 <= query_root < query.nodes@.len(),
        n <= usize::MAX,
    ensures
        forall|i: int|
            0 <= i < matches_upto(query, target, query_root, n, equality).len() ==> (
            #[trigger] matches_upto(query, target, query_root, n, equality)[i]).len() >= 1,
        forall|i: int|
            0 <= i < matches_upto(query, target, query_root, n, equality).len() ==> (
            #[trigger] matches_upto(query, target, query_root, n, equality)[i])[0].node < n,
        forall|i: int, j: int|
            0 <= i < j < matches_upto(query, target, query_root, n, equality).len() ==> (
            #[trigger] matches_upto(query, target, query_root, n, equality)[i])[0].node < (
            #[trigger] matches_upto(query, target, query_root, n, equality)[j])[0].node,
    decreases n,
{
    if n > 0 {
        lemma_matches_upto_shape(query, target, query_root, n - 1, equality);
        if complete_match_at(query, target, query_root, n - 1, equality) {
            lemma_match_at_shape(query, target, query_root, n - 1, None, equality);
        }
    }
}

/// Ordering law: with no pinned root, the results of a graph match come in
/// ascending order of the target root that produced them.
pub proof fn lemma_results_ascending(
    query: Graph,
    target: Graph,
    query_root: int,
    equality: EqualityRequirement,
)
    requires
        query.wf(),
        acyclic(query),
        0 <= query_root < query.nodes@.len(),
    ensures
        forall|i: int, j: int|
            0 <= i < j < graph_match_results(query, target, query_root, None, equality).len()
                ==> (#[trigger] graph_match_results(
                query,
                target,
                query_root,
                None,
                equality,
            )[i])[0].node < (#[trigger] graph_match_results(
                query,
                target,
                query_root,
                None,
                equality,
            )[j])[0].node,
{
    assert(target.nodes.len() == target.nodes@.len());
    lemma_matches_upto_shape(query, target, query_root, target.nodes@.len() as int, equality);
}

/// The identifiers of `banned`, abstracted to character sequences.
pub open spec fn banned_view(banned: Seq<String>) -> Seq<Seq<char>> {
    banned.map_values(|s: String| s@)
}

/// The depth-first, pre-order trace of the nodes reachable from `n` without
/// crossing an edge whose identifier is banned.  A node reachable along two
/// distinct edge paths appears once per path: this is a trace, not a
/// visited set.
pub open spec fn expand_nodes(g: Graph, n: int, banned: Seq<Seq<char>>) -> Seq<node::Index>
    decreases
            node_rank(g)[n],
            edge_chain(g, g.nodes@[n].first_outgoing_edge).len() + 1,
    when g.wf() && acyclic(g) && 0 <= n < g.nodes@.len()
{
    seq![n as node::Index] + expand_via(
        g,
        n,
        edge_chain(g, g.nodes@[n].first_outgoing_edge),
        banned,
    )
}

/// Expands the targets of `chain_edges` (a suffix of `n`'s outgoing chain)
/// in order, skipping banned edges entirely.
pub open spec fn expand_via(
    g: Graph,
    n: int,
    chain_edges: Seq<edge::Index>,
    banned: Seq<Seq<char>>,
) -> Seq<node::Index>
    decreases node_rank(g)[n], chain_edges.len(),
    when g.wf() && acyclic(g) && 0 <= n < g.nodes@.len() && (forall|t: int|
        0 <= t < chain_edges.len() ==> has_edge(g, n, #[trigger] chain_edges[t]))
{
    if chain_edges.len() == 0 {
        Seq::empty()
    } else {
        let e = chain_edges[0];
        let head: Seq<node::Index> = if banned.contains(g.edges@[e as int].identifier@) {
            Seq::empty()
        } else {
            proof {
                lemma_edge_rank_decreases(g, n, e);
            }
            expand_nodes(g, g.edges@[e as int].target as int, banned)
        };
        head + expand_via(g, n, chain_edges.drop_first(), banned)
    }
}

/// Decides whether `ident` occurs among `identifiers`.
fn contains_identifier(identifiers: &Vec<String>, ident: &String) -> (r: bool)
    ensures
        r == banned_view(identifiers@).contains(ident@),
{
    let n = identifiers.len();
    let mut i: usize = 0;
    while i < n
        invariant
            n == identifiers@.len(),
            i <= n,
            forall|t: int| 0 <= t < i ==> #[trigger] banned_view(identifiers@)[t] != ident@,
        decreases n - i,
    {
        if identifiers[i] == *ident {
            proof {
                assert(banned_view(identifiers@)[i as int] == ident@);
            }
            return true;
        }
        i = i + 1;
    }
    false
}

/// Collects, depth first and pre-order, the nodes reachable from
/// `root_index` without crossing an edge whose identifier appears in
/// `banned_identifiers`.
///
/// Cycle policy: the traversal keeps no visited set, so the graph must be
/// acyclic (`acyclic`); this is the documented DAG requirement rather than a
/// run-time guard.
pub fn expand_subgraph(
    graph: &Graph,
    root_index: node::Index,
    banned_identifiers: &Vec<String>,
) -> (r: Vec<node::Index>)
    requires
        graph.wf(),
        acyclic(*graph),
        root_index < graph.nodes@.len(),
    ensures
        r@ == expand_nodes(*graph, root_index as int, banned_view(banned_identifiers@)),
    decreases node_rank(*graph)[root_index as int],
{
    let ghost ri = root_index as int;
    let ghost banned = banned_view(banned_identifiers@);
    let mut node_list: Vec<node::Index> = Vec::new();
    node_list.push(root_index);
    let root_node_edges = graph.edges_for_node(root_index);
    let ghost chain = edge_chain(*graph, graph.nodes@[ri].first_outgoing_edge);
    proof {
        lemma_edge_chain_in_bounds(*graph, graph.nodes@[ri].first_outgoing_edge);
        lemma_chain_has_edge(*graph, ri);
        assert(chain.skip(0) =~= chain);
    }
    let n = root_node_edges.len();
    let mut k: usize = 0;
    while k < n
        invariant
            graph.wf(),
            acyclic(*graph),
            ri == root_index as int,
            root_index < graph.nodes@.len(),
            banned == banned_view(banned_identifiers@),
            n == root_node_edges@.len(),
            k <= n,
            root_node_edges@ == chain,
            chain == edge_chain(*graph, graph.nodes@[ri].first_outgoing_edge),
            forall|t: int| 0 <= t < chain.len() ==> #[trigger] chain[t] < graph.edges@.len(),
            forall|t: int| 0 <= t < chain.len() ==> has_edge(*graph, ri, #[trigger] chain[t]),
            seq![root_index] + expand_via(*graph, ri, chain, banned) == node_list@ + expand_via(
                *graph,
                ri,
                chain.skip(k as int),
                banned,
            ),
        decreases n - k,
    {
        let e = root_node_edges[k];
        proof {
            assert forall|t: int| 0 <= t < chain.skip(k as int).len() implies has_edge(
                *graph,
                ri,
                #[trigger] chain.skip(k as int)[t],
            ) by {
                assert(chain.skip(k as int)[t] == chain[k + t]);
            }
            assert(chain.skip(k as int)[0] == chain[k as int]);
            assert(has_edge(*graph, ri, e));
            lemma_edge_rank_decreases(*graph, ri, e);
            assert(chain.skip(k as int).drop_first() =~= chain.skip(k as int + 1));
        }
        if contains_identifier(banned_identifiers, &graph.edges[e].identifier) {
            proof {
                assert((node_list@ + (Seq::<node::Index>::empty() + expand_via(
                    *graph,
                    ri,
                    chain.skip(k as int + 1),
                    banned,
                ))) =~= (node_list@ + expand_via(*graph, ri, chain.skip(k as int + 1), banned)));
            }
        } else {
            let target = graph.edges[e].target;
            let mut inner = expand_subgraph(graph, target, banned_identifiers);
            let ghost previous = node_list@;
            let ghost inner_trace = inner@;
            node_list.append(&mut inner);
            proof {
                assert((previous + (inner_trace + expand_via(
                    *graph,
                    ri,
                    chain.skip(k as int + 1),
                    banned,
                ))) =~= (node_list@ + expand_via(*graph, ri, chain.skip(k as int + 1), banned)));
            }
        }
        k = k + 1;
    }
    proof {
        assert(chain.skip(n as int) =~= Seq::<edge::Index>::empty());
        assert((node_list@ + Seq::<node::Index>::empty()) =~= node_list@);
    }
    node_list
}

} // verus!
