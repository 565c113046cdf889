use std::collections::{HashMap, HashSet, VecDeque};
use vstd::prelude::*;

verus! {

broadcast use vstd::std_specs::hash::group_hash_axioms;

/// Identifier of a vertex, chosen by the caller.
pub type VertexId = u32;

/// The ids of every entry of `m`, each once, in the map's own order.
pub(crate) fn key_list<T>(m: &HashMap<VertexId, T>) -> (r: Vec<VertexId>)
    ensures
        r@.to_set() == m@.dom(),
        r@.no_duplicates(),
        r@.len() == m@.dom().len(),
{
    let mut r: Vec<VertexId> = Vec::new();
    for k in it: m.keys()
        invariant
            it.seq().unref().to_set() == m@.dom(),
            it.seq().unref().no_duplicates(),
            it.seq().len() == m@.dom().len(),
            r@ == it.seq().unref().take(it.index()),
            it.index() == it.seq().len() ==> r@ =~= it.seq().unref(),
    {
        r.push(*k);
    }
    r
}

/// A sequence without repeats fits in any finite set that holds its elements.
proof fn lemma_distinct_len_le<A>(s: Seq<A>, bound: Set<A>)
    requires
        s.no_duplicates(),
        s.to_set().subset_of(bound),
        bound.finite(),
    ensures
        s.len() <= bound.len(),
{
    s.unique_seq_to_set();
    vstd::set_lib::lemma_len_subset(s.to_set(), bound);
}

/// The edges after a vertex `id` is given a row: an empty one where it had none.
pub open spec fn with_row<E>(edges: Map<VertexId, Map<VertexId, E>>, id: VertexId) -> Map<VertexId, Map<VertexId, E>> {
    if edges.contains_key(id) {
        edges
    } else {
        edges.insert(id, Map::empty())
    }
}

/// The value of the edge `from -> to`, if there is one.
pub open spec fn edge_value<E>(edges: Map<VertexId, Map<VertexId, E>>, from: VertexId, to: VertexId) -> Option<E> {
    if edges.contains_key(from) && edges[from].contains_key(to) {
        Some(edges[from][to])
    } else {
        None
    }
}

/// The edges after `from -> to` is set to `value`; unchanged where `from` has no row.
pub open spec fn with_edge<E>(edges: Map<VertexId, Map<VertexId, E>>, from: VertexId, to: VertexId, value: E) -> Map<VertexId, Map<VertexId, E>> {
    if edges.contains_key(from) {
        edges.insert(from, edges[from].insert(to, value))
    } else {
        edges
    }
}

/// The edges after `from -> to` is taken out; unchanged where `from` has no row.
pub open spec fn without_edge<E>(edges: Map<VertexId, Map<VertexId, E>>, from: VertexId, to: VertexId) -> Map<VertexId, Map<VertexId, E>> {
    if edges.contains_key(from) {
        edges.insert(from, edges[from].remove(to))
    } else {
        edges
    }
}

/// The edges after vertex `id` is removed: its row goes, and so does every
/// edge into it.
pub open spec fn without_vertex<E>(edges: Map<VertexId, Map<VertexId, E>>, id: VertexId) -> Map<VertexId, Map<VertexId, E>> {
    edges.remove(id).map_values(|row: Map<VertexId, E>| row.remove(id))
}

/// A directed edge slot, from its first id to its second.
pub struct OrientedEdge(pub VertexId, pub VertexId);

/// A directed graph whose vertices carry a `V` and whose edges carry an `E`.
///
/// Every vertex has an outgoing-edge row, possibly empty, and every row
/// belongs to a vertex. An edge may point to an id that is not a vertex.
pub struct Graph<V, E> {
    pub(crate) adj_list: HashMap<VertexId, HashMap<VertexId, E>>,
    pub(crate) vertices: HashMap<VertexId, V>,
}

impl<V, E> Graph<V, E> {
    /// The vertices, each id with its value.
    pub closed spec fn vertex_map(&self) -> Map<VertexId, V> {
        self.vertices@
    }

    /// The edges: for each source vertex, each destination with the edge's value.
    pub closed spec fn edge_map(&self) -> Map<VertexId, Map<VertexId, E>> {
        self.adj_list@.map_values(|row: HashMap<VertexId, E>| row@)
    }

    /// The views are those of the two stores.
    pub(crate) proof fn lemma_views(&self)
        ensures
            self.vertex_map() == self.vertices@,
            self.edge_map() == self.adj_list@.map_values(|row: HashMap<VertexId, E>| row@),
    {
    }

    /// The two stores hold the same ids.
    pub open spec fn wf(&self) -> bool {
        self.edge_map().dom() == self.vertex_map().dom()
    }

    /// An empty graph.
    pub fn new() -> (g: Graph<V, E>)
        ensures
            g.wf(),
            g.vertex_map() == Map::<VertexId, V>::empty(),
            g.edge_map() == Map::<VertexId, Map<VertexId, E>>::empty(),
    {
        let g = Graph { adj_list: HashMap::new(), vertices: HashMap::new() };
        assert(g.edge_map() =~= Map::<VertexId, Map<VertexId, E>>::empty());
        g
    }

    /// Inserts the vertex `id` with `value`, or replaces its value, and gives
    /// back the value it replaced. A new vertex gets an empty row; an existing
    /// one keeps its edges.
    pub fn insert_node(&mut self, id: VertexId, value: V) -> (r: Option<V>)
        requires
            old(self).wf(),
        ensures
            final(self).wf(),
            final(self).vertex_map() == old(self).vertex_map().insert(id, value),
            final(self).edge_map() == with_row(old(self).edge_map(), id),
            r == if old(self).vertex_map().contains_key(id) {
                Some(old(self).vertex_map()[id])
            } else {
                None::<V>
            },
    {
        if !self.adj_list.contains_key(&id) {
            let row: HashMap<VertexId, E> = HashMap::new();
            self.adj_list.insert(id, row);
            assert(self.edge_map() =~= old(self).edge_map().insert(id, Map::empty()));
        }
        assert(self.edge_map().dom() =~= self.vertex_map().dom().insert(id));
        self.vertices.insert(id, value)
    }

    /// Inserts the edge `edge.0 -> edge.1` with `value`, or replaces its value,
    /// and gives back the value it replaced. Nothing happens, and nothing is
    /// returned, where `edge.0` is not a vertex.
    pub fn insert_edge(&mut self, edge: OrientedEdge, value: E) -> (r: Option<E>)
        requires
            old(self).wf(),
        ensures
            final(self).wf(),
            final(self).vertex_map() == old(self).vertex_map(),
            final(self).edge_map() == with_edge(old(self).edge_map(), edge.0, edge.1, value),
            r == edge_value(old(self).edge_map(), edge.0, edge.1),
    {
        let from = edge.0;
        let to = edge.1;
        match self.adj_list.remove(&from) {
            None => {
                assert(self.adj_list@ =~= old(self).adj_list@);
                None
            },
            Some(mut row) => {
                let r = row.insert(to, value);
                self.adj_list.insert(from, row);
                assert(self.adj_list@ =~= old(self).adj_list@.insert(from, row));
                assert(self.edge_map() =~= old(self).edge_map().insert(from, old(self).edge_map()[from].insert(to, value)));
                assert(self.edge_map().dom() =~= old(self).edge_map().dom());
                r
            },
        }
    }

    /// Removes the edge `edge.0 -> edge.1` and gives back its value; nothing
    /// is returned where there was no such edge.
    pub fn remove_edge(&mut self, edge: OrientedEdge) -> (r: Option<E>)
        requires
            old(self).wf(),
        ensures
            final(self).wf(),
            final(self).vertex_map() == old(self).vertex_map(),
            final(self).edge_map() == without_edge(old(self).edge_map(), edge.0, edge.1),
            r == edge_value(old(self).edge_map(), edge.0, edge.1),
    {
        let from = edge.0;
        let to = edge.1;
        match self.adj_list.remove(&from) {
            None => {
                assert(self.adj_list@ =~= old(self).adj_list@);
                None
            },
            Some(mut row) => {
                let r = row.remove(&to);
                self.adj_list.insert(from, row);
                assert(self.adj_list@ =~= old(self).adj_list@.insert(from, row));
                assert(self.edge_map() =~= old(self).edge_map().insert(from, old(self).edge_map()[from].remove(to)));
                assert(self.edge_map().dom() =~= old(self).edge_map().dom());
                r
            },
        }
    }

    /// The destinations of the edges out of `id`, each once, in no fixed
    /// order; nothing where `id` is not a vertex.
    pub fn get_adjacents(&self, id: VertexId) -> (r: Option<Vec<&VertexId>>)
        ensures
            match r {
                Some(v) => {
                    &&& self.edge_map().contains_key(id)
                    &&& v@.unref().to_set() == self.edge_map()[id].dom()
                    &&& v@.unref().no_duplicates()
                },
                None => !self.edge_map().contains_key(id),
            },
    {
        match self.adj_list.get(&id) {
            None => None,
            Some(row) => {
                let mut r: Vec<&VertexId> = Vec::new();
                for k in it: row.keys()
                    invariant
                        it.seq().unref().to_set() == row@.dom(),
                        it.seq().unref().no_duplicates(),
                        r@ == it.seq().take(it.index()),
                        it.index() == it.seq().len() ==> r@ =~= it.seq(),
                {
                    r.push(k);
                }
                Some(r)
            },
        }
    }

    /// Removes vertex `id`, its row of outgoing edges and every edge that
    /// points to it, and gives back its value; nothing is returned where
    /// there was no such vertex. Edges that point to other non-vertices stay.
    pub fn remove_node(&mut self, id: VertexId) -> (r: Option<V>)
        requires
            old(self).wf(),
        ensures
            final(self).wf(),
            final(self).vertex_map() == old(self).vertex_map().remove(id),
            final(self).edge_map() == without_vertex(old(self).edge_map(), id),
            r == if old(self).vertex_map().contains_key(id) {
                Some(old(self).vertex_map()[id])
            } else {
                None::<V>
            },
    {
        let sources = key_list(&self.adj_list);
        let ghost before = self.edge_map();
        for i in 0..sources.len()
            invariant
                sources@.to_set() == before.dom(),
                sources@.no_duplicates(),
                self.vertices == old(self).vertices,
                before == old(self).edge_map(),
                self.edge_map().dom() == before.dom(),
                forall|j: int| 0 <= j < i ==> #[trigger] self.edge_map()[sources@[j]] == before[sources@[j]].remove(id),
                forall|k: VertexId| #[trigger] self.edge_map().contains_key(k) && !sources@.take(i as int).contains(k) ==> self.edge_map()[k] == before[k],
        {
            let k = sources[i];
            let ghost prev = self.edge_map();
            assert(forall|j: int| 0 <= j < i ==> prev[sources@[j]] == #[trigger] before[sources@[j]].remove(id));
            assert(sources@.to_set().contains(sources@[i as int]));
            assert(!sources@.take(i as int).contains(k)) by {
                if sources@.take(i as int).contains(k) {
                    let j = choose|j: int| 0 <= j < i && sources@.take(i as int)[j] == k;
                    assert(sources@[j] == sources@[i as int]);
                }
            }
            assert(prev[k] == before[k]);
            if let Some(mut row) = self.adj_list.remove(&k) {
                row.remove(&id);
                self.adj_list.insert(k, row);
            }
            assert(self.edge_map()[k] == before[k].remove(id));
            assert(forall|k2: VertexId| k2 != k && prev.contains_key(k2) ==> self.edge_map()[k2] == prev[k2]);
            assert forall|j: int| 0 <= j < i + 1 implies #[trigger] self.edge_map()[sources@[j]] == before[sources@[j]].remove(id) by {
                if j < i {
                    assert(sources@[j] != sources@[i as int]);
                    assert(sources@.to_set().contains(sources@[j]));
                }
            }
            assert(self.edge_map().dom() =~= before.dom());
            assert forall|k2: VertexId| #[trigger] self.edge_map().contains_key(k2) && !sources@.take(i + 1).contains(k2) implies self.edge_map()[k2] == before[k2] by {
                assert(sources@.take(i + 1)[i as int] == k);
                if sources@.take(i as int).contains(k2) {
                    let j = choose|j: int| 0 <= j < i && sources@.take(i as int)[j] == k2;
                    assert(sources@.take(i + 1)[j] == k2);
                }
            }
        }
        assert forall|k: VertexId| #[trigger] self.edge_map().contains_key(k) implies self.edge_map()[k] == before[k].remove(id) by {
            let j = choose|j: int| 0 <= j < sources@.len() && sources@[j] == k;
        }
        self.adj_list.remove(&id);
        assert(self.edge_map() =~= before.remove(id).map_values(|row: Map<VertexId, E>| row.remove(id)));
        let r = self.vertices.remove(&id);
        assert(self.edge_map().dom() =~= self.vertex_map().dom());
        r
    }

    /// Whether there is an edge from `a` to `b` and `b` is a vertex.
    pub open spec fn leads_to(&self, a: VertexId, b: VertexId) -> bool {
        &&& self.edge_map().contains_key(a)
        &&& self.edge_map()[a].contains_key(b)
        &&& self.vertex_map().contains_key(b)
    }

    /// Whether every edge out of `s` to a vertex ends in `s`.
    pub open spec fn closed_under_edges(&self, s: Set<VertexId>) -> bool {
        forall|a: VertexId, b: VertexId| s.contains(a) && #[trigger] self.leads_to(a, b) ==> s.contains(b)
    }

    /// Whether each id of `r` is reached by an edge from one before it, or
    /// starts a new component: no edge leaves the ids before it.
    pub open spec fn walks_by_edges(&self, r: Seq<VertexId>) -> bool {
        forall|x: int| 0 <= x < r.len() ==> (exists|y: int| 0 <= y < x && #[trigger] self.leads_to(r[y], r[x]))
            || self.closed_under_edges(#[trigger] r.take(x).to_set())
    }

    /// Whether `r[y]` is the first id of `r` with an edge to `r[x]`, and comes before it.
    pub open spec fn first_link(&self, r: Seq<VertexId>, x: int, y: int) -> bool {
        &&& 0 <= y < x < r.len()
        &&& self.leads_to(r[y], r[x])
        &&& forall|z: int| 0 <= z < y ==> !#[trigger] self.leads_to(r[z], r[x])
    }

    /// Whether ids reached by an edge come in the order of the first ids
    /// that reach them, as a breadth-first walk has it.
    pub open spec fn breadth_first(&self, r: Seq<VertexId>) -> bool {
        forall|x1: int, x2: int, y1: int, y2: int|
            x1 < x2 && #[trigger] self.first_link(r, x1, y1) && #[trigger] self.first_link(r, x2, y2) ==> y1 <= y2
    }

    /// Whether `parent` gives, for each id of `r`, the position of the first
    /// id before it with an edge to it, in nondecreasing order, or `-1` where
    /// it starts a component.
    closed spec fn parents_of(&self, r: Seq<VertexId>, parent: Seq<int>) -> bool {
        &&& parent.len() == r.len()
        &&& forall|x: int| 0 <= x < r.len() && parent[x] >= 0 ==> #[trigger] self.first_link(r, x, parent[x])
        &&& forall|x: int| 0 <= x < r.len() && #[trigger] parent[x] < 0 ==> self.closed_under_edges(r.take(x).to_set())
        &&& forall|x1: int, x2: int| 0 <= x1 < x2 < r.len() && #[trigger] parent[x1] >= 0 && #[trigger] parent[x2] >= 0 ==> parent[x1] <= parent[x2]
    }

    /// Every vertex once, in breadth-first order: each component is walked
    /// from a start vertex taken in the vertex store's order, and edges to ids
    /// that are not vertices are not followed.
    pub fn traverse_bfs(&self) -> (r: Vec<VertexId>)
        ensures
            r@.to_set() == self.vertex_map().dom(),
            r@.no_duplicates(),
            r@.len() == self.vertex_map().dom().len(),
            self.walks_by_edges(r@),
            self.breadth_first(r@),
    {
        let ghost dom = self.vertex_map().dom();
        let mut traverse: Vec<VertexId> = Vec::new();
        let mut queue: VecDeque<VertexId> = VecDeque::new();
        let mut used: HashSet<VertexId> = HashSet::new();
        let starts = key_list(&self.vertices);
        let ghost mut parent: Seq<int> = Seq::empty();
        assert(traverse@.to_set() =~= Set::<VertexId>::empty());
        for i in 0..starts.len()
            invariant
                starts@.to_set() == dom,
                dom == self.vertex_map().dom(),
                dom.finite(),
                queue@.len() == 0,
                used@ == traverse@.to_set(),
                traverse@.no_duplicates(),
                traverse@.to_set().subset_of(dom),
                forall|j: int| 0 <= j < i ==> used@.contains(#[trigger] starts@[j]),
                self.closed_under_edges(traverse@.to_set()),
                self.walks_by_edges(traverse@),
                self.parents_of(traverse@, parent),
        {
            let start = starts[i];
            assert(starts@.to_set().contains(starts@[i as int]));
            if !used.contains(&start) {
                let ghost base = traverse@.len();
                queue.push_back(start);
                used.insert(start);
                let ghost mut order: Seq<VertexId> = traverse@.push(start);
                proof {
                    let prior = parent;
                    parent = parent.push(-1);
                    assert(order.take(traverse@.len() as int) =~= traverse@);
                    assert forall|x: int| 0 <= x < order.len() && parent[x] >= 0 implies #[trigger] self.first_link(order, x, parent[x]) by {
                        assert(parent[x] == prior[x]);
                        assert(self.first_link(traverse@, x, prior[x]));
                        assert forall|z: int| 0 <= z < parent[x] implies !#[trigger] self.leads_to(order[z], order[x]) by {
                            assert(order[z] == traverse@[z]);
                            assert(!self.leads_to(traverse@[z], traverse@[x]));
                        }
                    }
                    assert forall|x: int| 0 <= x < order.len() && #[trigger] parent[x] < 0 implies self.closed_under_edges(order.take(x).to_set()) by {
                        if x < traverse@.len() {
                            assert(order.take(x) =~= traverse@.take(x));
                            assert(prior[x] < 0);
                        }
                    }
                    assert forall|x1: int, x2: int| 0 <= x1 < x2 < order.len() && #[trigger] parent[x1] >= 0 && #[trigger] parent[x2] >= 0 implies parent[x1] <= parent[x2] by {
                        assert(prior[x1] >= 0 && prior[x2] >= 0);
                    }
                    assert(self.parents_of(order, parent));
                    assert forall|x: int| 0 <= x < parent.len() implies #[trigger] parent[x] < traverse@.len() by {
                        if parent[x] >= 0 {
                            assert(self.first_link(order, x, parent[x]));
                        }
                    }
                    traverse@.lemma_push_to_set_commute(start);
                    assert forall|x: int| 0 <= x < order.len() implies (exists|y: int|
                        0 <= y < x && #[trigger] self.leads_to(order[y], order[x]))
                        || self.closed_under_edges(#[trigger] order.take(x).to_set()) by {
                        if x < traverse@.len() {
                            assert(order.take(x) =~= traverse@.take(x));
                            assert(order[x] == traverse@[x]);
                            if exists|y: int| 0 <= y < x && #[trigger] self.leads_to(traverse@[y], traverse@[x]) {
                                let y = choose|y: int| 0 <= y < x && #[trigger] self.leads_to(traverse@[y], traverse@[x]);
                                assert(order[y] == traverse@[y]);
                            }
                        } else {
                            assert(order.take(x) =~= traverse@);
                        }
                    }
                }
                assert(traverse@ + queue@ =~= order);
                assert(order.to_set() =~= used@);
                while queue.len() > 0
                    invariant
                        dom == self.vertex_map().dom(),
                        dom.finite(),
                        traverse@ + queue@ == order,
                        order.no_duplicates(),
                        order.to_set() == used@,
                        used@.subset_of(dom),
                        i < starts@.len(),
                        forall|j: int| 0 <= j <= i ==> used@.contains(#[trigger] starts@[j]),
                        forall|a: VertexId, b: VertexId| traverse@.to_set().contains(a) && #[trigger] self.leads_to(a, b) ==> used@.contains(b),
                        forall|x: int| 0 <= x < order.len() ==> (exists|y: int| 0 <= y < x && y < traverse@.len() && #[trigger] self.leads_to(order[y], order[x]))
                            || self.closed_under_edges(#[trigger] order.take(x).to_set()),
                        self.vertex_map() == self.vertices@,
                        self.edge_map() == self.adj_list@.map_values(|row: HashMap<VertexId, E>| row@),
                        self.parents_of(order, parent),
                        forall|x: int| 0 <= x < parent.len() ==> #[trigger] parent[x] < traverse@.len(),
                    decreases dom.len() - traverse@.len(),
                {
                    proof {
                        lemma_distinct_len_le(order, dom);
                    }
                    let current = queue.pop_front().unwrap();
                    let ghost done = traverse@;
                    traverse.push(current);
                    assert(traverse@ + queue@ =~= order);
                    proof {
                        done.lemma_push_to_set_commute(current);
                    }
                    match self.adj_list.get(&current) {
                        None => {
                            assert(forall|b: VertexId| !self.leads_to(current, b));
                        },
                        Some(row) => {
                            let adjacent = key_list(row);
                            for k in 0..adjacent.len()
                                invariant
                                    dom == self.vertex_map().dom(),
                                    dom.finite(),
                                    traverse@ + queue@ == order,
                                    order.no_duplicates(),
                                    order.to_set() == used@,
                                    used@.subset_of(dom),
                                    i < starts@.len(),
                                    forall|j: int| 0 <= j <= i ==> used@.contains(#[trigger] starts@[j]),
                                    traverse@ == done.push(current),
                                    traverse@.to_set() == done.to_set().insert(current),
                                    forall|a: VertexId, b: VertexId| done.to_set().contains(a) && #[trigger] self.leads_to(a, b) ==> used@.contains(b),
                                    forall|j: int| 0 <= j < k ==> self.vertex_map().contains_key(#[trigger] adjacent@[j]) ==> used@.contains(adjacent@[j]),
                                    adjacent@.to_set() == row@.dom(),
                                    self.edge_map()[current] == row@,
                                    self.edge_map().contains_key(current),
                                    forall|x: int| 0 <= x < order.len() ==> (exists|y: int| 0 <= y < x && y < traverse@.len() && #[trigger] self.leads_to(order[y], order[x]))
                                        || self.closed_under_edges(#[trigger] order.take(x).to_set()),
                                    self.vertex_map() == self.vertices@,
                                    self.parents_of(order, parent),
                                    forall|x: int| 0 <= x < parent.len() ==> #[trigger] parent[x] < traverse@.len(),
                                    order.take(done.len() as int) == done,
                            {
                                let next = adjacent[k];
                                if !used.contains(&next) && self.vertices.contains_key(&next) {
                                    queue.push_back(next);
                                    used.insert(next);
                                    proof {
                                        let prev = order;
                                        let prior = parent;
                                        order.lemma_push_to_set_commute(next);
                                        order = order.push(next);
                                        parent = parent.push(done.len() as int);
                                        assert(order.take(done.len() as int) =~= prev.take(done.len() as int));
                                        assert forall|z: int| 0 <= z < done.len() implies !#[trigger] self.leads_to(order[z], next) by {
                                            assert(order[z] == done[z]);
                                            assert(done.to_set().contains(done[z]));
                                        }
                                        assert forall|x: int| 0 <= x < order.len() && parent[x] >= 0 implies #[trigger] self.first_link(order, x, parent[x]) by {
                                            if x < prev.len() {
                                                assert(parent[x] == prior[x]);
                                                assert(self.first_link(prev, x, prior[x]));
                                                assert forall|z: int| 0 <= z < parent[x] implies !#[trigger] self.leads_to(order[z], order[x]) by {
                                                    assert(order[z] == prev[z]);
                                                    assert(!self.leads_to(prev[z], prev[x]));
                                                }
                                            } else {
                                                assert(order[done.len() as int] == current);
                                            }
                                        }
                                        assert forall|x: int| 0 <= x < order.len() && #[trigger] parent[x] < 0 implies self.closed_under_edges(order.take(x).to_set()) by {
                                            assert(x < prev.len());
                                            assert(order.take(x) =~= prev.take(x));
                                            assert(prior[x] < 0);
                                        }
                                        assert forall|x1: int, x2: int| 0 <= x1 < x2 < order.len() && #[trigger] parent[x1] >= 0 && #[trigger] parent[x2] >= 0 implies parent[x1] <= parent[x2] by {
                                            assert(prior[x1] == parent[x1]);
                                            if x2 < prev.len() {
                                                assert(prior[x2] == parent[x2]);
                                            }
                                        }
                                        assert(self.parents_of(order, parent));
                                        assert(adjacent@.to_set().contains(adjacent@[k as int]));
                                        assert(self.leads_to(order[done.len() as int], next));
                                        assert forall|x: int| 0 <= x < order.len() implies (exists|y: int| 0 <= y < x && y < traverse@.len() && #[trigger] self.leads_to(order[y], order[x]))
                                            || self.closed_under_edges(#[trigger] order.take(x).to_set()) by {
                                            if x < prev.len() {
                                                assert(order.take(x) =~= prev.take(x));
                                                assert(order[x] == prev[x]);
                                                if exists|y: int| 0 <= y < x && y < traverse@.len() && #[trigger] self.leads_to(prev[y], prev[x]) {
                                                    let y = choose|y: int| 0 <= y < x && y < traverse@.len() && #[trigger] self.leads_to(prev[y], prev[x]);
                                                    assert(order[y] == prev[y]);
                                                }
                                            } else {
                                                assert(order[x] == next);
                                                assert(self.leads_to(order[done.len() as int], order[x]));
                                            }
                                        }
                                    }
                                    assert(traverse@ + queue@ =~= order);
                                    assert(order.to_set() =~= used@);
                                }
                            }
                            proof {
                                assert forall|b: VertexId| #[trigger] self.leads_to(current, b) implies used@.contains(b) by {
                                    assert(adjacent@.to_set().contains(b));
                                    let j = choose|j: int| 0 <= j < adjacent@.len() && adjacent@[j] == b;
                                }
                            }
                        },
                    }
                }
                assert(traverse@ =~= order);
                proof {
                    assert(self.parents_of(traverse@, parent));
                    assert forall|x: int| 0 <= x < traverse@.len() implies (exists|y: int| 0 <= y < x && #[trigger] self.leads_to(traverse@[y], traverse@[x]))
                        || self.closed_under_edges(#[trigger] traverse@.take(x).to_set()) by {
                        if exists|y: int| 0 <= y < x && y < traverse@.len() && #[trigger] self.leads_to(order[y], order[x]) {
                            let y = choose|y: int| 0 <= y < x && y < traverse@.len() && #[trigger] self.leads_to(order[y], order[x]);
                            assert(self.leads_to(traverse@[y], traverse@[x]));
                        }
                    }
                }
            }
        }
        assert(traverse@.to_set() =~= dom);
        proof {
            traverse@.unique_seq_to_set();
            let r = traverse@;
            assert forall|x: int, y: int| #[trigger] self.first_link(r, x, y) implies parent[x] == y by {
                if parent[x] < 0 {
                    assert(r.take(x)[y] == r[y]);
                    assert(r.take(x).to_set().contains(r[y]));
                    assert(r.take(x).to_set().contains(r[x]));
                    let z = choose|z: int| 0 <= z < x && r.take(x)[z] == r[x];
                    assert(r[z] == r[x]);
                } else {
                    assert(self.first_link(r, x, parent[x]));
                    if parent[x] < y {
                        assert(!self.leads_to(r[parent[x]], r[x]));
                    } else if y < parent[x] {
                        assert(!self.leads_to(r[y], r[x]));
                    }
                }
            }
        }
        traverse
    }

    /// The value of vertex `id`, or nothing where there is no such vertex.
    pub fn get_vertex_value(&self, id: VertexId) -> (r: Option<&V>)
        ensures
            match r {
                Some(v) => self.vertex_map().contains_key(id) && *v == self.vertex_map()[id],
                None => !self.vertex_map().contains_key(id),
            },
    {
        self.vertices.get(&id)
    }
}

} // verus!
