use std::collections::HashMap;
use vstd::prelude::*;

verus! {

/// A vertex: a dense index in `0..n`.
pub type Vertex = usize;

/// A directed edge, from the first vertex to the second.
pub type Edge = (Vertex, Vertex);

/// The out-neighbours of each vertex, in the order the edges were given.
pub type AdjacencyList = Vec<Vec<Vertex>>;

/// The descriptive record of one paper.
#[derive(Debug, Clone)]
pub struct NodeData {
    pub mapped_node: usize,
    pub label: String,
    pub subject: String,
    pub features: Vec<u8>,
}

/// A directed graph over the vertices `0..n`, with the records of its papers.
///
/// `node_data` is keyed by the paper's own identifier; `reverse_map` leads
/// from a vertex back to that identifier.
#[derive(Debug)]
pub struct Graph {
    pub n: usize,
    pub outedges: AdjacencyList,
    pub node_data: HashMap<usize, NodeData>,
    pub reverse_map: HashMap<usize, usize>,
}

/// Why a graph could not be built.
#[derive(Debug, Clone, Copy, PartialEq, Eq, Structural)]
pub enum GraphError {
    /// An edge names a vertex outside `0..n`.
    EdgeOutOfRange { from: Vertex, to: Vertex },
    /// Two node records carry the same paper identifier.
    DuplicateNode { id: usize },
    /// An edge starts at a paper identifier that no node record carries.
    UnknownSource { id: usize },
    /// An edge ends at a paper identifier that no node record carries.
    UnknownTarget { id: usize },
}

/// The targets of the edges that leave `v`, in the order of `edges`.
pub open spec fn targets_of(edges: Seq<Edge>, v: Vertex) -> Seq<Vertex>
    decreases edges.len(),
{
    if edges.len() == 0 {
        Seq::empty()
    } else {
        let rest = targets_of(edges.drop_last(), v);
        if edges.last().0 == v {
            rest.push(edges.last().1)
        } else {
            rest
        }
    }
}

/// Both endpoints of every edge lie in `0..n`.
pub open spec fn edges_in_range(edges: Seq<Edge>, n: nat) -> bool {
    forall|i: int| 0 <= i < edges.len() ==> (#[trigger] edges[i]).0 < n && edges[i].1 < n
}

impl Graph {
    /// One adjacency list per vertex, and every edge ends at a vertex.
    pub open spec fn wf(&self) -> bool {
        &&& self.outedges@.len() == self.n
        &&& forall|v: int, j: int|
            0 <= v < self.n && 0 <= j < self.outedges@[v]@.len() ==> #[trigger] self.outedges@[v]@[j]
                < self.n
    }

    /// `u` is among the out-neighbours of `v`.
    pub open spec fn has_edge(&self, v: int, u: int) -> bool {
        0 <= v < self.outedges@.len() && self.outedges@[v]@.contains(u as Vertex)
    }

    /// Builds the graph on `0..n` whose adjacency list of `v` holds the
    /// targets of the edges leaving `v`, in order, duplicates and self-loops
    /// kept. An edge with an endpoint outside `0..n` is refused.
    pub fn create_directed(
        n: usize,
        edges: &Vec<Edge>,
        node_data: HashMap<usize, NodeData>,
        reverse_map: HashMap<usize, usize>,
    ) -> (r: Result<Graph, GraphError>)
        ensures
            r is Ok <==> edges_in_range(edges@, n as nat),
            r matches Ok(g) ==> {
                &&& g.wf()
                &&& g.n == n
                &&& forall|v: int| 0 <= v < n ==> #[trigger] g.outedges@[v]@ == targets_of(edges@, v as Vertex)
                &&& g.node_data@ == node_data@
                &&& g.reverse_map@ == reverse_map@
            },
            r matches Err(e) ==> (e matches GraphError::EdgeOutOfRange { .. }),
    {
        let mut adj_list: AdjacencyList = Vec::new();
        let mut v: usize = 0;
        while v < n
            invariant
                v <= n,
                adj_list@.len() == v,
                forall|w: int| 0 <= w < v ==> (#[trigger] adj_list@[w])@ == Seq::<Vertex>::empty(),
            decreases n - v,
        {
            adj_list.push(Vec::new());
            v = v + 1;
        }
        let mut i: usize = 0;
        while i < edges.len()
            invariant
                i <= edges@.len(),
                adj_list@.len() == n,
                edges_in_range(edges@.subrange(0, i as int), n as nat),
                forall|w: int| 0 <= w < n ==> (#[trigger] adj_list@[w])@ == targets_of(
                    edges@.subrange(0, i as int),
                    w as Vertex,
                ),
            decreases edges@.len() - i,
        {
            let (from, to) = edges[i];
            if from >= n || to >= n {
                proof {
                    assert(!edges_in_range(edges@, n as nat)) by {
                        assert(edges@[i as int] == (from, to));
                    }
                }
                return Err(GraphError::EdgeOutOfRange { from, to });
            }
            proof {
                let pre = edges@.subrange(0, i as int);
                let post = edges@.subrange(0, i + 1);
                assert(post.drop_last() == pre);
                assert(post.last() == (from, to));
                assert forall|w: int| 0 <= w < n && w != from implies #[trigger] targets_of(post, w as Vertex)
                    == targets_of(pre, w as Vertex) by {}
            }
            adj_list[from].push(to);
            i = i + 1;
        }
        proof {
            assert(edges@.subrange(0, edges@.len() as int) == edges@);
        }
        let g = Graph { n, outedges: adj_list, node_data, reverse_map };
        proof {
            assert forall|v: int, j: int|
                0 <= v < g.n && 0 <= j < g.outedges@[v]@.len() implies #[trigger] g.outedges@[v]@[j]
                < g.n by {
                lemma_targets_in_range(edges@, v as Vertex, n as nat);
            }
        }
        Ok(g)
    }
}

/// Every target of an edge of an in-range edge list is in range.
proof fn lemma_targets_in_range(edges: Seq<Edge>, v: Vertex, n: nat)
    requires
        edges_in_range(edges, n),
    ensures
        forall|j: int| 0 <= j < targets_of(edges, v).len() ==> #[trigger] targets_of(edges, v)[j] < n,
    decreases edges.len(),
{
    if edges.len() > 0 {
        assert(edges_in_range(edges.drop_last(), n)) by {
            assert forall|i: int| 0 <= i < edges.drop_last().len() implies (#[trigger] edges.drop_last()[i]).0 < n
                && edges.drop_last()[i].1 < n by {
                assert(edges.drop_last()[i] == edges[i]);
            }
        }
        lemma_targets_in_range(edges.drop_last(), v, n);
        assert(edges[edges.len() - 1].1 < n);
        let rest = targets_of(edges.drop_last(), v);
        assert forall|j: int| 0 <= j < targets_of(edges, v).len() implies #[trigger] targets_of(
            edges,
            v,
        )[j] < n by {
            if j < rest.len() {
                assert(targets_of(edges, v)[j] == rest[j]);
            }
        }
    }
}

/// The paper identifiers of the node records, in order.
pub open spec fn ids_of(nodes: Seq<(usize, NodeData)>) -> Seq<usize> {
    nodes.map_values(|p: (usize, NodeData)| p.0)
}

/// The vertex of the paper `id`: its position among the records.
pub open spec fn vertex_of(ids: Seq<usize>, id: usize) -> Vertex {
    (choose|i: int| 0 <= i < ids.len() && ids[i] == id) as Vertex
}

/// Both papers of every edge have a node record.
pub open spec fn edges_known(ids: Seq<usize>, edges: Seq<Edge>) -> bool {
    forall|j: int| 0 <= j < edges.len() ==> ids.contains((#[trigger] edges[j]).0) && ids.contains(edges[j].1)
}

/// Edge `j` is the first whose source or target has no record, and `id` is
/// its source when `source` holds (the source is looked at first), its
/// target otherwise.
pub open spec fn first_unknown_edge(ids: Seq<usize>, edges: Seq<Edge>, id: usize, source: bool) -> bool {
    exists|j: int|
        0 <= j < edges.len() && edges_known(ids, #[trigger] edges.subrange(0, j)) && if source {
            edges[j].0 == id && !ids.contains(id)
        } else {
            ids.contains(edges[j].0) && edges[j].1 == id && !ids.contains(id)
        }
}

/// The edges between papers, with each paper replaced by its vertex.
pub open spec fn vertex_edges(ids: Seq<usize>, edges: Seq<Edge>) -> Seq<Edge> {
    edges.map_values(|e: Edge| (vertex_of(ids, e.0), vertex_of(ids, e.1)))
}

proof fn lemma_vertex_of(ids: Seq<usize>, i: int)
    requires
        ids.no_duplicates(),
        0 <= i < ids.len(),
        ids.len() <= usize::MAX,
    ensures
        vertex_of(ids, ids[i]) == i,
{
    let j = choose|j: int| 0 <= j < ids.len() && ids[j] == ids[i];
    assert(j == i);
}

impl Graph {
    /// Builds the graph of a citation network from its node records, each
    /// a paper identifier with the paper's data, and its edges, each a pair
    /// of paper identifiers. The vertex of a paper is the position of its
    /// record, and the record's `mapped_node` is set to it. Two records with
    /// one identifier are refused, and so is an edge with a paper that has
    /// no record: its source is checked first.
    pub fn from_records(nodes: Vec<(usize, NodeData)>, edges: &Vec<Edge>) -> (r: Result<Graph, GraphError>)
        ensures
            r is Ok <==> ids_of(nodes@).no_duplicates() && edges_known(ids_of(nodes@), edges@),
            r matches Ok(g) ==> {
                &&& g.wf()
                &&& g.n == nodes@.len()
                &&& forall|v: int|
                    0 <= v < g.n ==> #[trigger] g.outedges@[v]@ == targets_of(
                        vertex_edges(ids_of(nodes@), edges@),
                        v as Vertex,
                    )
                &&& forall|v: usize| #[trigger] g.reverse_map@.contains_key(v) <==> v < g.n
                &&& forall|v: int| 0 <= v < g.n ==> g.reverse_map@[v as usize] == (#[trigger] nodes@[v]).0
                &&& forall|v: int|
                    0 <= v < g.n ==> #[trigger] g.node_data@.contains_key(nodes@[v].0) && {
                        let d = g.node_data@[nodes@[v].0];
                        &&& d.mapped_node == v
                        &&& d.label == nodes@[v].1.label
                        &&& d.subject == nodes@[v].1.subject
                        &&& d.features == nodes@[v].1.features
                    }
                &&& forall|id: usize| #[trigger] g.node_data@.contains_key(id) ==> ids_of(nodes@).contains(id)
                &&& g.records_consistent()
            },
            r matches Err(GraphError::DuplicateNode { id }) ==> !ids_of(nodes@).no_duplicates()
                && ids_of(nodes@).contains(id),
            r matches Err(GraphError::UnknownSource { id }) ==> ids_of(nodes@).no_duplicates()
                && first_unknown_edge(ids_of(nodes@), edges@, id, true),
            r matches Err(GraphError::UnknownTarget { id }) ==> ids_of(nodes@).no_duplicates()
                && first_unknown_edge(ids_of(nodes@), edges@, id, false),
            !(r matches Err(GraphError::EdgeOutOfRange { .. })),
    {
        broadcast use vstd::std_specs::hash::group_hash_axioms;

        let ghost orig = nodes@;
        let ghost ids = ids_of(orig);
        let n = nodes.len();
        let mut pending = nodes;
        let mut node_data: HashMap<usize, NodeData> = HashMap::new();
        let mut reverse_map: HashMap<usize, usize> = HashMap::new();
        let mut index_of: HashMap<usize, usize> = HashMap::new();
        let mut i: usize = n;
        while i > 0
            invariant
                n == orig.len(),
                ids == ids_of(orig),
                orig == nodes@,
                i <= n,
                pending@ == orig.subrange(0, i as int),
                forall|a: int, b: int| i <= a < b < n ==> ids[a] != ids[b],
                forall|j: int|
                    i <= j < n ==> #[trigger] index_of@.contains_key(ids[j]) && index_of@[ids[j]] == j,
                forall|id: usize|
                    #[trigger] index_of@.contains_key(id) ==> exists|j: int| i <= j < n && ids[j] == id,
                forall|id: usize|
                    #[trigger] node_data@.contains_key(id) ==> exists|j: int| i <= j < n && ids[j] == id,
                forall|j: int|
                    i <= j < n ==> #[trigger] node_data@.contains_key(ids[j]) && {
                        let d = node_data@[ids[j]];
                        &&& d.mapped_node == j
                        &&& d.label == orig[j].1.label
                        &&& d.subject == orig[j].1.subject
                        &&& d.features == orig[j].1.features
                    },
                forall|v: usize| #[trigger] reverse_map@.contains_key(v) <==> i <= v < n,
                forall|j: int| i <= j < n ==> reverse_map@[j as usize] == ids[j],
            decreases i,
        {
            let (id, mut data) = match pending.pop() {
                Some(p) => p,
                None => {
                    proof {
                        assert(false);
                    }
                    return Err(GraphError::DuplicateNode { id: 0 });
                },
            };
            i = i - 1;
            proof {
                assert(orig[i as int] == (id, data));
                assert(pending@ == orig.subrange(0, i as int));
                assert(ids[i as int] == id);
            }
            if index_of.contains_key(&id) {
                proof {
                    let j = choose|j: int| i < j < n && ids[j] == id;
                    assert(ids[i as int] == ids[j]);
                    assert(ids.contains(id));
                    assert(!ids.no_duplicates());
                    assert(ids == ids_of(nodes@));
                }
                return Err(GraphError::DuplicateNode { id });
            }
            data.mapped_node = i;
            index_of.insert(id, i);
            node_data.insert(id, data);
            reverse_map.insert(i, id);
            proof {
                assert forall|a: int, b: int| i <= a < b < n implies ids[a] != ids[b] by {
                    if a == i {
                        assert(index_of@.contains_key(ids[b]));
                    }
                }
                assert forall|id2: usize| #[trigger] index_of@.contains_key(id2) implies exists|j: int|
                    i <= j < n && ids[j] == id2 by {
                    if id2 == id {
                        assert(ids[i as int] == id2);
                    }
                }
                assert forall|id2: usize| #[trigger] node_data@.contains_key(id2) implies exists|j: int|
                    i <= j < n && ids[j] == id2 by {
                    if id2 == id {
                        assert(ids[i as int] == id2);
                    }
                }
            }
        }
        let ghost vmap = index_of@;
        proof {
            assert(ids.no_duplicates());
            assert(ids.len() == n);
        }
        let mut mapped: Vec<Edge> = Vec::new();
        let mut k: usize = 0;
        while k < edges.len()
            invariant
                ids.no_duplicates(),
                ids == ids_of(nodes@),
                orig == nodes@,
                ids.len() == n,
                n <= usize::MAX,
                index_of@ == vmap,
                forall|j: int|
                    0 <= j < n ==> #[trigger] index_of@.contains_key(ids[j]) && index_of@[ids[j]] == j,
                forall|id: usize|
                    #[trigger] index_of@.contains_key(id) ==> exists|j: int| 0 <= j < n && ids[j] == id,
                k <= edges@.len(),
                mapped@ == vertex_edges(ids, edges@.subrange(0, k as int)),
                edges_known(ids, edges@.subrange(0, k as int)),
            decreases edges@.len() - k,
        {
            let (from, to) = edges[k];
            let s = match index_of.get(&from) {
                Some(s) => *s,
                None => {
                    proof {
                        if ids.contains(from) {
                            let j = choose|j: int| 0 <= j < ids.len() && ids[j] == from;
                            assert(index_of@.contains_key(ids[j]));
                        }
                        assert(edges@[k as int].0 == from);
                        assert(!edges_known(ids, edges@));
                        assert(edges_known(ids, edges@.subrange(0, k as int)));
                        assert(first_unknown_edge(ids, edges@, from, true));
                    }
                    return Err(GraphError::UnknownSource { id: from });
                },
            };
            let t = match index_of.get(&to) {
                Some(t) => *t,
                None => {
                    proof {
                        if ids.contains(to) {
                            let j = choose|j: int| 0 <= j < ids.len() && ids[j] == to;
                            assert(index_of@.contains_key(ids[j]));
                        }
                        assert(edges@[k as int].1 == to);
                        assert(!edges_known(ids, edges@));
                        assert(index_of@.contains_key(from));
                        let js = choose|j: int| 0 <= j < n && ids[j] == from;
                        assert(ids.contains(from));
                        assert(edges_known(ids, edges@.subrange(0, k as int)));
                        assert(first_unknown_edge(ids, edges@, to, false));
                    }
                    return Err(GraphError::UnknownTarget { id: to });
                },
            };
            proof {
                let js = choose|j: int| 0 <= j < n && ids[j] == from;
                let jt = choose|j: int| 0 <= j < n && ids[j] == to;
                lemma_vertex_of(ids, js);
                lemma_vertex_of(ids, jt);
                assert(s == js && t == jt);
                let pre = edges@.subrange(0, k as int);
                let post = edges@.subrange(0, k + 1);
                assert(post == pre.push((from, to)));
                assert(vertex_edges(ids, post) == vertex_edges(ids, pre).push((s, t)));
                assert forall|j: int| 0 <= j < post.len() implies ids.contains((#[trigger] post[j]).0)
                    && ids.contains(post[j].1) by {
                    if j == k {
                        assert(ids[js] == from);
                        assert(ids[jt] == to);
                    } else {
                        assert(post[j] == pre[j]);
                    }
                }
            }
            mapped.push((s, t));
            k = k + 1;
        }
        proof {
            assert(edges@.subrange(0, edges@.len() as int) == edges@);
            assert(edges_in_range(mapped@, n as nat)) by {
                assert forall|j: int| 0 <= j < mapped@.len() implies (#[trigger] mapped@[j]).0 < n
                    && mapped@[j].1 < n by {
                    let e = edges@[j];
                    assert(ids.contains(e.0) && ids.contains(e.1));
                    let js = choose|x: int| 0 <= x < n && ids[x] == e.0;
                    let jt = choose|x: int| 0 <= x < n && ids[x] == e.1;
                    lemma_vertex_of(ids, js);
                    lemma_vertex_of(ids, jt);
                }
            }
        }
        let g = Graph::create_directed(n, &mapped, node_data, reverse_map);
        match g {
            Ok(g) => {
                proof {
                    assert(mapped@ == vertex_edges(ids, edges@));
                    assert(forall|v: int| 0 <= v < g.n ==> #[trigger] g.outedges@[v]@ == targets_of(
                        vertex_edges(ids, edges@), v as Vertex));
                    assert(forall|v: usize| #[trigger] g.reverse_map@.contains_key(v) <==> v < g.n);
                    assert forall|v: int| 0 <= v < g.n implies g.reverse_map@[v as usize] == (
                    #[trigger] nodes@[v]).0 by {
                        assert(ids[v] == nodes@[v].0);
                    }
                    assert forall|v: int| 0 <= v < g.n implies #[trigger] g.node_data@.contains_key(nodes@[v].0) && {
                        let d = g.node_data@[nodes@[v].0];
                        &&& d.mapped_node == v
                        &&& d.label == nodes@[v].1.label
                        &&& d.subject == nodes@[v].1.subject
                        &&& d.features == nodes@[v].1.features
                    } by {
                        assert(ids[v] == nodes@[v].0);
                    }
                    assert forall|i: int| 0 <= i < g.n implies #[trigger] g.reverse_map@.contains_key(i as usize)
                        && g.node_data@.contains_key(g.reverse_map@[i as usize])
                        && g.node_data@[g.reverse_map@[i as usize]].mapped_node == i by {
                        assert(ids[i] == nodes@[i].0);
                    }
                    assert forall|id: usize| #[trigger] g.node_data@.contains_key(id) implies ids_of(nodes@).contains(id) by {
                        let j = choose|j: int| 0 <= j < n && ids[j] == id;
                    }
                }
                Ok(g)
            },
            Err(_) => {
                proof {
                    assert(false);
                }
                Err(GraphError::DuplicateNode { id: 0 })
            },
        }
    }
}

} // verus!
