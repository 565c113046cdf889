use vstd::prelude::*;

use crate::digraph::{edge_value, with_edge, without_edge, without_vertex, VertexId};

verus! {

/// The vertex store after a run of `insert_node` calls, one per pair, from `start`.
pub open spec fn after_inserts<V>(start: Map<VertexId, V>, ops: Seq<(VertexId, V)>) -> Map<VertexId, V>
    decreases ops.len(),
{
    if ops.len() == 0 {
        start
    } else {
        after_inserts(start, ops.drop_last()).insert(ops.last().0, ops.last().1)
    }
}

/// After a run of vertex insertions into an empty graph, the ids present are
/// exactly the ids inserted, and each holds the value of its last insertion.
pub proof fn law_inserts_keep_last<V>(ops: Seq<(VertexId, V)>)
    ensures
        after_inserts(Map::empty(), ops).dom() == ops.map_values(|p: (VertexId, V)| p.0).to_set(),
        forall|id: VertexId| #[trigger] after_inserts(Map::empty(), ops).contains_key(id) ==> exists|i: int|
            0 <= i < ops.len() && ops[i].0 == id && after_inserts(Map::empty(), ops)[id] == ops[i].1
                && forall|j: int| i < j < ops.len() ==> ops[j].0 != id,
    decreases ops.len(),
{
    if ops.len() > 0 {
        let init = ops.drop_last();
        law_inserts_keep_last(init);
        let last = ops.last();
        assert(ops.map_values(|p: (VertexId, V)| p.0) =~= init.map_values(|p: (VertexId, V)| p.0).push(last.0));
        init.map_values(|p: (VertexId, V)| p.0).lemma_push_to_set_commute(last.0);
        let m = after_inserts(Map::empty(), ops);
        assert forall|id: VertexId| #[trigger] m.contains_key(id) implies exists|i: int|
            0 <= i < ops.len() && ops[i].0 == id && m[id] == ops[i].1
                && forall|j: int| i < j < ops.len() ==> ops[j].0 != id by {
            if id == last.0 {
                assert(ops[ops.len() - 1].0 == id);
            } else {
                let i = choose|i: int| 0 <= i < init.len() && init[i].0 == id
                    && after_inserts(Map::empty(), init)[id] == init[i].1
                    && forall|j: int| i < j < init.len() ==> init[j].0 != id;
                assert(ops[i] == init[i]);
                assert forall|j: int| i < j < ops.len() implies ops[j].0 != id by {
                    if j < init.len() {
                        assert(ops[j] == init[j]);
                    }
                }
            }
        }
    } else {
        assert(ops.map_values(|p: (VertexId, V)| p.0).to_set() =~= Set::empty());
    }
}

/// Once `from` is a vertex, inserting `from -> to` makes `to` one of its
/// adjacents; inserting the same edge again replaces the value and reports
/// the first one.
pub proof fn law_insert_edge_then_adjacent<E>(
    edges: Map<VertexId, Map<VertexId, E>>,
    from: VertexId,
    to: VertexId,
    first: E,
    second: E,
)
    requires
        edges.contains_key(from),
    ensures
        with_edge(edges, from, to, first)[from].dom().contains(to),
        edge_value(with_edge(edges, from, to, first), from, to) == Some(first),
        with_edge(with_edge(edges, from, to, first), from, to, second) == with_edge(edges, from, to, second),
{
    let once = with_edge(edges, from, to, first);
    assert(once[from] == edges[from].insert(to, first));
    assert(once[from].insert(to, second) =~= edges[from].insert(to, second));
    assert(with_edge(once, from, to, second) =~= with_edge(edges, from, to, second));
}

/// Inserting an edge out of an id that is not a vertex changes nothing and
/// reports nothing.
pub proof fn law_insert_edge_unknown_source<E>(
    edges: Map<VertexId, Map<VertexId, E>>,
    from: VertexId,
    to: VertexId,
    value: E,
)
    requires
        !edges.contains_key(from),
    ensures
        with_edge(edges, from, to, value) == edges,
        edge_value(edges, from, to) is None,
{
}

/// After a vertex is removed it has no row, and no other row keeps an edge into it.
pub proof fn law_remove_vertex_clears<E>(edges: Map<VertexId, Map<VertexId, E>>, id: VertexId)
    ensures
        !without_vertex(edges, id).contains_key(id),
        forall|v: VertexId| #[trigger] without_vertex(edges, id).contains_key(v) ==> !without_vertex(edges, id)[v].contains_key(id),
{
}

/// Removing an edge out of an unknown id, or to an id its source has no
/// edge to, reports nothing and changes nothing that can be observed.
pub proof fn law_remove_missing_edge<E>(edges: Map<VertexId, Map<VertexId, E>>, from: VertexId, to: VertexId)
    requires
        !edges.contains_key(from) || !edges[from].contains_key(to),
    ensures
        edge_value(edges, from, to) is None,
        without_edge(edges, from, to) == edges,
{
    if edges.contains_key(from) {
        assert(edges[from].remove(to) =~= edges[from]);
        assert(without_edge(edges, from, to) =~= edges);
    }
}

} // verus!
