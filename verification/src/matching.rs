//! The pattern matcher: equality modes, the value predicate shared by node
//! and edge matching, and the recursive algorithm that binds a query graph
//! onto a target graph.

use vstd::prelude::*;
use vstd::string::StrSliceExecFns;
use crate::attributes::{attributes_match_spec, AttributeMap};
use crate::edge;
use crate::graph::{
    acyclic, edge_chain, has_edge, lemma_chain_has_edge, lemma_edge_chain_in_bounds,
    lemma_edge_rank_decreases, node_rank, Graph,
};
use crate::node;

verus! {

/// One bound pair of a match: the target node reached and the target edge
/// through which it was reached (`None` for the root of the match).
#[derive(Debug, PartialEq)]
pub struct Component {
    pub from_edge: Option<edge::Index>,
    pub node: node::Index,
}

/// The full ordered trace of one successful binding of the query graph onto
/// the target graph: root first, then depth first in query-edge order.
#[derive(Debug, PartialEq)]
pub struct MatchedComponents {
    pub list: Vec<Component>,
}

/// How a query attribute value is compared against a candidate value.
///
/// The set is closed today but meant to grow (prefix, suffix,
/// case-insensitive comparison); the predicate dispatches on this value so
/// that call sites never change when a mode is added.
pub enum EqualityRequirement {
    /// The candidate value must equal the query value exactly.
    Complete,
    /// The candidate value must contain the query value as a substring.
    Contains,
}

/// `needle` occurs as a contiguous substring of `hay`.
pub open spec fn contains_subseq(hay: Seq<char>, needle: Seq<char>) -> bool {
    exists|i: int|
        0 <= i <= hay.len() - needle.len() && #[trigger] hay.subrange(i, i + needle.len())
            == needle
}

/// What it means for a candidate value to satisfy a query value under a mode.
pub open spec fn values_match_spec(
    candidate: Seq<char>,
    query: Seq<char>,
    equality: EqualityRequirement,
) -> bool {
    match equality {
        EqualityRequirement::Complete => candidate == query,
        EqualityRequirement::Contains => contains_subseq(candidate, query),
    }
}

/// Naive substring scan deciding `contains_subseq(hay@, needle@)`.
fn value_contains(hay: &String, needle: &String) -> (r: bool)
    ensures
        r == contains_subseq(hay@, needle@),
{
    let hay_str = hay.as_str();
    let needle_str = needle.as_str();
    let hay_len = hay_str.unicode_len();
    let needle_len = needle_str.unicode_len();
    if needle_len > hay_len {
        return false;
    }
    let mut i: usize = 0;
    while i <= hay_len - needle_len
        invariant
            needle_len <= hay_len,
            hay_len == hay@.len(),
            needle_len == needle@.len(),
            hay_str@ == hay@,
            needle_str@ == needle@,
            i <= hay_len - needle_len + 1,
            forall|p: int|
                0 <= p < i ==> #[trigger] hay@.subrange(p, p + needle@.len()) != needle@,
        decreases hay_len - needle_len + 1 - i,
    {
        let mut j: usize = 0;
        let mut all_equal = true;
        while j < needle_len
            invariant
                needle_len <= hay_len,
                hay_len == hay@.len(),
                needle_len == needle@.len(),
                hay_str@ == hay@,
                needle_str@ == needle@,
                i <= hay_len - needle_len,
                j <= needle_len,
                all_equal ==> forall|t: int| 0 <= t < j ==> hay@[i + t] == needle@[t],
                !all_equal ==> exists|t: int| 0 <= t < needle@.len() && hay@[i + t] != needle@[t],
            decreases needle_len - j,
        {
            if hay_str.get_char(i + j) != needle_str.get_char(j) {
                all_equal = false;
                j = needle_len;
            } else {
                j = j + 1;
            }
        }
        if all_equal {
            proof {
                assert(hay@.subrange(i as int, i + needle@.len()) =~= needle@);
            }
            return true;
        }
        proof {
            let t = choose|t: int| 0 <= t < needle@.len() && hay@[i + t] != needle@[t];
            assert(hay@.subrange(i as int, i + needle@.len())[t] == hay@[i + t]);
        }
        i = i + 1;
    }
    return false;
}

/// Decides whether `value1` (the candidate) satisfies `value2` (the query)
/// under the given equality mode.
pub fn values_match(value1: &String, value2: &String, equality: &EqualityRequirement) -> (r: bool)
    ensures
        r == values_match_spec(value1@, value2@, *equality),
{
    match *equality {
        EqualityRequirement::Complete => *value1 == *value2,
        EqualityRequirement::Contains => value_contains(value1, value2),
    }
}

/// The first candidate edge index whose attributes satisfy the query edge's
/// attributes, scanning `candidates` in order.
pub open spec fn first_compatible_edge(
    target: Graph,
    candidates: Seq<edge::Index>,
    query_attrs: Option<AttributeMap>,
    equality: EqualityRequirement,
) -> Option<edge::Index>
    decreases candidates.len(),
{
    if candidates.len() == 0 {
        None
    } else if attributes_match_spec(
        query_attrs,
        target.edges@[candidates[0] as int].attributes,
        equality,
    ) {
        Some(candidates[0])
    } else {
        first_compatible_edge(target, candidates.drop_first(), query_attrs, equality)
    }
}

/// The recursive match of query node `query_index` against target node
/// `target_index`: `None` when the attempt fails, otherwise the pre-order
/// trace of bound components, rooted at `target_index` reached through
/// `source_edge`.  For each query edge, the first attribute-compatible
/// candidate edge is committed to; there is no backtracking.
pub open spec fn match_at(
    query: Graph,
    target: Graph,
    query_index: int,
    target_index: int,
    source_edge: Option<edge::Index>,
    equality: EqualityRequirement,
) -> Option<Seq<Component>>
    decreases
            node_rank(query)[query_index],
            edge_chain(query, query.nodes@[query_index].first_outgoing_edge).len() + 1,
    when query.wf() && acyclic(query) && 0 <= query_index < query.nodes@.len()
{
    if !attributes_match_spec(
        query.nodes@[query_index].attributes,
        target.nodes@[target_index].attributes,
        equality,
    ) {
        None
    } else {
        match match_children(
            query,
            target,
            query_index,
            edge_chain(query, query.nodes@[query_index].first_outgoing_edge),
            target_index,
            equality,
        ) {
            None => None,
            Some(rest) => Some(
                seq![Component { from_edge: source_edge, node: target_index as node::Index }]
                    + rest,
            ),
        }
    }
}

/// Matches the query edges `query_edges` (a suffix of `query_index`'s
/// outgoing chain) from target node `target_index`, concatenating the
/// descendant traces in query-edge order; any failure fails the whole match.
pub open spec fn match_children(
    query: Graph,
    target: Graph,
    query_index: int,
    query_edges: Seq<edge::Index>,
    target_index: int,
    equality: EqualityRequirement,
) -> Option<Seq<Component>>
    decreases node_rank(query)[query_index], query_edges.len(),
    when query.wf() && acyclic(query) && 0 <= query_index < query.nodes@.len() && (forall|t: int|
        0 <= t < query_edges.len() ==> has_edge(query, query_index, #[trigger] query_edges[t]))
{
    if query_edges.len() == 0 {
        Some(Seq::empty())
    } else {
        let qe = query_edges[0];
        match first_compatible_edge(
            target,
            edge_chain(target, target.nodes@[target_index].first_outgoing_edge),
            query.edges@[qe as int].attributes,
            equality,
        ) {
            None => None,
            Some(ge) => {
                let sub = match_at(
                    query,
                    target,
                    query.edges@[qe as int].target as int,
                    target.edges@[ge as int].target as int,
                    Some(ge),
                    equality,
                );
                proof {
                    crate::graph::lemma_edge_rank_decreases(query, query_index, qe);
                }
                match sub {
                    None => None,
                    Some(sub_trace) => {
                        match match_children(
                            query,
                            target,
                            query_index,
                            query_edges.drop_first(),
                            target_index,
                            equality,
                        ) {
                            None => None,
                            Some(rest) => Some(sub_trace + rest),
                        }
                    },
                }
            },
        }
    }
}

/// The trace produced by a match attempt: the successful trace, or the empty
/// sequence when the attempt failed.  A successful trace is never empty, so
/// the two cases cannot be confused.
pub open spec fn match_result(
    query: Graph,
    target: Graph,
    query_index: int,
    target_index: int,
    source_edge: Option<edge::Index>,
    equality: EqualityRequirement,
) -> Seq<Component> {
    match match_at(query, target, query_index, target_index, source_edge, equality) {
        Some(trace) => trace,
        None => Seq::empty(),
    }
}

/// A successful match trace is non-empty and starts with the component that
/// binds its own root.
pub proof fn lemma_match_at_shape(
    query: Graph,
    target: Graph,
    query_index: int,
    target_index: int,
    source_edge: Option<edge::Index>,
    equality: EqualityRequirement,
)
    requires
        query.wf(),
        acyclic(query),
        0 <= query_index < query.nodes@.len(),
    ensures
        (match match_at(query, target, query_index, target_index, source_edge, equality) {
            Some(trace) => trace.len() >= 1 && trace[0] == (Component {
                from_edge: source_edge,
                node: target_index as node::Index,
            }),
            None => true,
        }),
{
}

/// Attempts to bind the query subtree rooted at `query_root_index` onto the
/// target graph at `graph_root_index`.  On success the returned list is the
/// pre-order trace of bound components; on failure it is empty.
pub fn recusive_node_match(
    query_root_index: usize,
    graph_root_index: usize,
    query: &Graph,
    graph: &Graph,
    source_edge: Option<edge::Index>,
    equality: &EqualityRequirement,
) -> (r: MatchedComponents)
    requires
        query.wf(),
        graph.wf(),
        acyclic(*query),
        query_root_index < query.nodes@.len(),
        graph_root_index < graph.nodes@.len(),
    ensures
        r.list@ == match_result(
            *query,
            *graph,
            query_root_index as int,
            graph_root_index as int,
            source_edge,
            *equality,
        ),
    decreases node_rank(*query)[query_root_index as int],
{
    let ghost qri = query_root_index as int;
    let ghost gri = graph_root_index as int;
    if !query.nodes[query_root_index].matches(&graph.nodes[graph_root_index], equality) {
        return MatchedComponents { list: Vec::new() };
    }
    let mut list: Vec<Component> = Vec::new();
    list.push(Component { from_edge: source_edge, node: graph_root_index });
    let query_edges = query.edges_for_node(query_root_index);
    let ghost qchain = edge_chain(*query, query.nodes@[qri].first_outgoing_edge);
    proof {
        lemma_edge_chain_in_bounds(*query, query.nodes@[qri].first_outgoing_edge);
        lemma_chain_has_edge(*query, qri);
        assert(qchain.skip(0) =~= qchain);
    }
    if query_edges.len() == 0 {
        proof {
            assert(list@ =~= seq![
                Component { from_edge: source_edge, node: graph_root_index },
            ] + Seq::<Component>::empty());
        }
        return MatchedComponents { list };
    }
    let graph_edges = graph.edges_for_node(graph_root_index);
    let ghost gchain = edge_chain(*graph, graph.nodes@[gri].first_outgoing_edge);
    proof {
        lemma_edge_chain_in_bounds(*graph, graph.nodes@[gri].first_outgoing_edge);
    }
    let n = query_edges.len();
    let mut k: usize = 0;
    while k < n
        invariant
            query.wf(),
            graph.wf(),
            acyclic(*query),
            qri == query_root_index as int,
            gri == graph_root_index as int,
            query_root_index < query.nodes@.len(),
            graph_root_index < graph.nodes@.len(),
            n == query_edges@.len(),
            k <= n,
            query_edges@ == qchain,
            graph_edges@ == gchain,
            qchain == edge_chain(*query, query.nodes@[qri].first_outgoing_edge),
            gchain == edge_chain(*graph, graph.nodes@[gri].first_outgoing_edge),
            forall|t: int| 0 <= t < qchain.len() ==> #[trigger] qchain[t] < query.edges@.len(),
            forall|t: int| 0 <= t < gchain.len() ==> #[trigger] gchain[t] < graph.edges@.len(),
            forall|t: int| 0 <= t < qchain.len() ==> has_edge(*query, qri, #[trigger] qchain[t]),
            (match match_children(
                *query,
                *graph,
                qri,
                qchain.skip(k as int),
                gri,
                *equality,
            ) {
                None => match_at(*query, *graph, qri, gri, source_edge, *equality) is None,
                Some(rest) => match_at(*query, *graph, qri, gri, source_edge, *equality) == Some(
                    list@ + rest,
                ),
            }),
        decreases n - k,
    {
        let qe = query_edges[k];
        proof {
            assert forall|t: int| 0 <= t < qchain.skip(k as int).len() implies has_edge(
                *query,
                qri,
                #[trigger] qchain.skip(k as int)[t],
            ) by {
                assert(qchain.skip(k as int)[t] == qchain[k + t]);
            }
            assert(qchain.skip(k as int)[0] == qchain[k as int]);
            assert(has_edge(*query, qri, qe));
            lemma_edge_rank_decreases(*query, qri, qe);
        }
        let mut matching_edge_in_graph: Option<edge::Index> = None;
        let m = graph_edges.len();
        let mut j: usize = 0;
        proof {
            assert(gchain.skip(0) =~= gchain);
        }
        while j < m
            invariant_except_break
                matching_edge_in_graph is None,
            invariant
                query.wf(),
                graph.wf(),
                m == graph_edges@.len(),
                j <= m,
                graph_edges@ == gchain,
                qe < query.edges@.len(),
                forall|t: int| 0 <= t < gchain.len() ==> #[trigger] gchain[t] < graph.edges@.len(),
                first_compatible_edge(
                    *graph,
                    gchain.skip(j as int),
                    query.edges@[qe as int].attributes,
                    *equality,
                ) == first_compatible_edge(
                    *graph,
                    gchain,
                    query.edges@[qe as int].attributes,
                    *equality,
                ),
            ensures
                (match matching_edge_in_graph {
                    Some(ge) => ge < graph.edges@.len() && first_compatible_edge(
                        *graph,
                        gchain,
                        query.edges@[qe as int].attributes,
                        *equality,
                    ) == Some(ge),
                    None => first_compatible_edge(
                        *graph,
                        gchain,
                        query.edges@[qe as int].attributes,
                        *equality,
                    ) is None,
                }),
            decreases m - j,
        {
            let ge = graph_edges[j];
            proof {
                assert(gchain.skip(j as int)[0] == gchain[j as int]);
            }
            if query.edges[qe].matches(&graph.edges[ge], equality) {
                matching_edge_in_graph = Some(ge);
                break ;
            }
            proof {
                assert(gchain.skip(j as int).drop_first() =~= gchain.skip(j as int + 1));
            }
            j = j + 1;
        }
        proof {
            if j >= m {
                assert(gchain.skip(m as int) =~= Seq::<edge::Index>::empty());
            }
        }
        match matching_edge_in_graph {
            Some(matched_edge) => {
                let query_target = query.edges[qe].target;
                let graph_target = graph.edges[matched_edge].target;
                proof {
                    assert(graph.edge_ok(matched_edge as int));
                }
                if !query.nodes[query_target].matches(&graph.nodes[graph_target], equality) {
                    proof {
                        assert(match_at(
                            *query,
                            *graph,
                            query_target as int,
                            graph_target as int,
                            Some(matched_edge),
                            *equality,
                        ) is None);
                    }
                    return MatchedComponents { list: Vec::new() };
                }
                let mut descendents = recusive_node_match(
                    query_target,
                    graph_target,
                    query,
                    graph,
                    Some(matched_edge),
                    equality,
                );
                proof {
                    lemma_match_at_shape(
                        *query,
                        *graph,
                        query_target as int,
                        graph_target as int,
                        Some(matched_edge),
                        *equality,
                    );
                }
                if descendents.list.len() == 0 {
                    return MatchedComponents { list: Vec::new() };
                }
                let ghost old_list = list@;
                let ghost sub_trace = descendents.list@;
                list.append(&mut descendents.list);
                proof {
                    assert(qchain.skip(k as int).drop_first() =~= qchain.skip(k as int + 1));
                    match match_children(
                        *query,
                        *graph,
                        qri,
                        qchain.skip(k as int + 1),
                        gri,
                        *equality,
                    ) {
                        None => {},
                        Some(rest) => {
                            assert((old_list + (sub_trace + rest)) =~= (list@ + rest));
                        },
                    }
                }
                k = k + 1;
            },
            None => {
                return MatchedComponents { list: Vec::new() };
            },
        }
    }
    proof {
        assert(qchain.skip(n as int) =~= Seq::<edge::Index>::empty());
        assert((list@ + Seq::<Component>::empty()) =~= list@);
    }
    MatchedComponents { list }
}

} // verus!
