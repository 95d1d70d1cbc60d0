use crate::graph::{AdjacencyList, Graph, NodeData, Vertex};
use std::collections::HashMap;
use vstd::prelude::*;

verus! {

impl Graph {
    /// Every vertex has a paper identifier and a record under it, and the
    /// record names that vertex.
    pub open spec fn records_consistent(&self) -> bool {
        forall|i: int|
            0 <= i < self.n ==> #[trigger] self.reverse_map@.contains_key(i as usize)
                && self.node_data@.contains_key(self.reverse_map@[i as usize])
                && self.node_data@[self.reverse_map@[i as usize]].mapped_node == i
    }

    /// The subject of the paper at vertex `i`.
    pub open spec fn subject_of(&self, i: int) -> Seq<char> {
        self.node_data@[self.reverse_map@[i as usize]].subject@
    }
}

/// The number of vertices before `i` whose paper has the subject `s`: the
/// vertex of such a paper in the subgraph of its subject.
pub open spec fn rank(g: &Graph, s: Seq<char>, i: int) -> nat
    decreases i,
{
    if i <= 0 {
        0
    } else {
        rank(g, s, i - 1) + if g.subject_of(i - 1) == s {
            1nat
        } else {
            0nat
        }
    }
}

/// The targets among `t` whose paper has the subject `s`, each replaced by
/// its vertex in the subgraph of `s`.
pub open spec fn local_targets(g: &Graph, s: Seq<char>, t: Seq<Vertex>) -> Seq<Vertex>
    decreases t.len(),
{
    if t.len() == 0 {
        Seq::empty()
    } else {
        let r = local_targets(g, s, t.drop_last());
        if g.subject_of(t.last() as int) == s {
            r.push(rank(g, s, t.last() as int) as Vertex)
        } else {
            r
        }
    }
}

/// Some paper of subject `s` has the vertex `x` in the subgraph of `s`.
pub open spec fn is_taken(g: &Graph, s: Seq<char>, x: int) -> bool {
    exists|i: int| 0 <= i < g.n && g.subject_of(i) == s && #[trigger] rank(g, s, i) == x
}

/// `sub` is the subgraph of the papers of subject `s`: its vertices are
/// those papers in their order, and it keeps the edges between them.
pub open spec fn is_subject_subgraph(g: &Graph, s: Seq<char>, sub: &Graph) -> bool {
    &&& sub.wf()
    &&& sub.n == rank(g, s, g.n as int)
    &&& forall|x: int| 0 <= x < sub.n ==> #[trigger] is_taken(g, s, x)
    &&& forall|v: usize| #[trigger] sub.reverse_map@.contains_key(v) <==> v < sub.n
    &&& forall|i: int|
        0 <= i < g.n && g.subject_of(i) == s ==> {
            let x = #[trigger] rank(g, s, i) as int;
            let id = g.reverse_map@[i as usize];
            &&& sub.outedges@[x]@ == local_targets(g, s, g.outedges@[i]@)
            &&& sub.reverse_map@[x as usize] == id
            &&& sub.node_data@.contains_key(id)
            &&& sub.node_data@[id].mapped_node == x
            &&& sub.node_data@[id].label@ == g.node_data@[id].label@
            &&& sub.node_data@[id].subject@ == g.node_data@[id].subject@
            &&& sub.node_data@[id].features@ == g.node_data@[id].features@
        }
    &&& forall|id: usize|
        #[trigger] sub.node_data@.contains_key(id) ==> exists|i: int|
            0 <= i < g.n && g.subject_of(i) == s && g.reverse_map@[i as usize] == id
}

proof fn lemma_rank_bound(g: &Graph, s: Seq<char>, i: int, j: int)
    requires
        0 <= i <= j,
    ensures
        rank(g, s, i) <= rank(g, s, j),
        g.subject_of(i) == s && i < j ==> rank(g, s, i) < rank(g, s, j),
    decreases j - i,
{
    if i < j {
        lemma_rank_bound(g, s, i, j - 1);
    }
}

fn copy_bytes(v: &Vec<u8>) -> (r: Vec<u8>)
    ensures
        r@ == v@,
{
    let mut r: Vec<u8> = Vec::new();
    let mut i: usize = 0;
    while i < v.len()
        invariant
            i <= v@.len(),
            r@ == v@.subrange(0, i as int),
        decreases v@.len() - i,
    {
        r.push(v[i]);
        i = i + 1;
        proof {
            assert(r@ == v@.subrange(0, i as int));
        }
    }
    proof {
        assert(v@.subrange(0, v@.len() as int) == v@);
    }
    r
}

proof fn lemma_rank_at_most(g: &Graph, s: Seq<char>, i: int)
    requires
        0 <= i,
    ensures
        rank(g, s, i) <= i,
    decreases i,
{
    if i > 0 {
        lemma_rank_at_most(g, s, i - 1);
    }
}

/// The subjects of the papers, each once, in the order of their first
/// vertex; the index of each vertex's subject in that list; and the
/// vertex of each vertex in the subgraph of its subject.
fn group_by_subject(g: &Graph) -> (r: (Vec<String>, Vec<usize>, Vec<usize>))
    requires
        g.wf(),
        g.records_consistent(),
    ensures
        forall|a: int, b: int| 0 <= a < b < r.0@.len() ==> (#[trigger] r.0@[a])@ != (#[trigger] r.0@[b])@,
        forall|a: int| 0 <= a < r.0@.len() ==> rank(g, (#[trigger] r.0@[a])@, g.n as int) > 0,
        r.1@.len() == g.n,
        r.2@.len() == g.n,
        forall|i: int|
            0 <= i < g.n ==> (#[trigger] r.1@[i]) < r.0@.len() && r.0@[r.1@[i] as int]@ == g.subject_of(i)
                && r.2@[i] == rank(g, g.subject_of(i), i),
{
    broadcast use vstd::std_specs::hash::group_hash_axioms;

    let mut subjects: Vec<String> = Vec::new();
    let mut counts: Vec<usize> = Vec::new();
    let mut group_of: Vec<usize> = Vec::new();
    let mut local: Vec<usize> = Vec::new();
    let mut i: usize = 0;
    while i < g.n
        invariant
            g.wf(),
            g.records_consistent(),
            i <= g.n,
            counts@.len() == subjects@.len(),
            forall|a: int, b: int| 0 <= a < b < subjects@.len() ==> (#[trigger] subjects@[a])@ != (#[trigger] subjects@[b])@,
            forall|a: int| 0 <= a < subjects@.len() ==> #[trigger] counts@[a] == rank(g, subjects@[a]@, i as int),
            forall|a: int| 0 <= a < subjects@.len() ==> rank(g, (#[trigger] subjects@[a])@, i as int) > 0,
            forall|s: Seq<char>|
                (forall|a: int| 0 <= a < subjects@.len() ==> (#[trigger] subjects@[a])@ != s) ==> #[trigger] rank(
                    g,
                    s,
                    i as int,
                ) == 0,
            group_of@.len() == i,
            local@.len() == i,
            forall|w: int|
                0 <= w < i ==> (#[trigger] group_of@[w]) < subjects@.len() && subjects@[group_of@[w] as int]@
                    == g.subject_of(w) && local@[w] == rank(g, g.subject_of(w), w),
        decreases g.n - i,
    {
        proof {
            let ii = i as int;
            assert(g.reverse_map@.contains_key(ii as usize));
        }
        let id = match g.reverse_map.get(&i) {
            Some(id) => *id,
            None => {
                proof {
                    assert(g.reverse_map@.contains_key(i));
                }
                0
            },
        };
        let data = match g.node_data.get(&id) {
            Some(d) => d,
            None => {
                proof {
                    assert(g.node_data@.contains_key(id));
                }
                return (subjects, group_of, local);
            },
        };
        let ghost s = g.subject_of(i as int);
        proof {
            assert(data.subject@ == s);
        }
        let mut a: usize = 0;
        while a < subjects.len() && !(subjects[a] == data.subject)
            invariant
                a <= subjects@.len(),
                forall|b: int| 0 <= b < a ==> (#[trigger] subjects@[b])@ != s,
                data.subject@ == s,
            decreases subjects@.len() - a,
        {
            a = a + 1;
        }
        let ghost old_subjects = subjects@;
        let ghost old_counts = counts@;
        if a == subjects.len() {
            proof {
                assert(rank(g, s, i as int) == 0);
            }
            subjects.push(data.subject.clone());
            counts.push(0);
        }
        proof {
            lemma_rank_at_most(g, s, i as int);
            assert(subjects@[a as int]@ == s);
        }
        local.push(counts[a]);
        counts.set(a, counts[a] + 1);
        group_of.push(a);
        proof {
            assert forall|b: int| 0 <= b < subjects@.len() implies #[trigger] counts@[b] == rank(
                g,
                subjects@[b]@,
                i + 1,
            ) by {
                if b != a {
                    assert(subjects@[b]@ != s);
                }
            }
            assert forall|b: int, c: int| 0 <= b < c < subjects@.len() implies (#[trigger] subjects@[b])@
                != (#[trigger] subjects@[c])@ by {
                if c == old_subjects.len() {
                    assert(subjects@[b] == old_subjects[b]);
                }
            }
            assert forall|s2: Seq<char>|
                (forall|b: int| 0 <= b < subjects@.len() ==> (#[trigger] subjects@[b])@ != s2) implies #[trigger] rank(
                g,
                s2,
                i + 1,
            ) == 0 by {
                assert(subjects@[a as int]@ != s2);
                assert forall|b: int| 0 <= b < old_subjects.len() implies (#[trigger] old_subjects[b])@ != s2 by {
                    assert(subjects@[b] == old_subjects[b]);
                }
                assert(rank(g, s2, i as int) == 0);
                assert(g.subject_of(i as int) != s2);
            }
        }
        i = i + 1;
    }
    (subjects, group_of, local)
}

/// The subgraph of the papers whose subject has index `a` in `subjects`.
fn build_subgraph(
    g: &Graph,
    subjects: &Vec<String>,
    group_of: &Vec<usize>,
    local: &Vec<usize>,
    a: usize,
) -> (sub: Graph)
    requires
        g.wf(),
        g.records_consistent(),
        a < subjects@.len(),
        forall|b: int, c: int| 0 <= b < c < subjects@.len() ==> (#[trigger] subjects@[b])@ != (#[trigger] subjects@[c])@,
        group_of@.len() == g.n,
        local@.len() == g.n,
        forall|i: int|
            0 <= i < g.n ==> (#[trigger] group_of@[i]) < subjects@.len() && subjects@[group_of@[i] as int]@
                == g.subject_of(i) && local@[i] == rank(g, g.subject_of(i), i),
    ensures
        is_subject_subgraph(g, subjects@[a as int]@, &sub),
{
    broadcast use vstd::std_specs::hash::group_hash_axioms;

    let ghost s = subjects@[a as int]@;
    let ghost total = rank(g, s, g.n as int);
    let mut outedges: AdjacencyList = Vec::new();
    let mut node_data: HashMap<usize, NodeData> = HashMap::new();
    let mut reverse_map: HashMap<usize, usize> = HashMap::new();
    let mut i: usize = 0;
    while i < g.n
        invariant
            g.wf(),
            g.records_consistent(),
            a < subjects@.len(),
            s == subjects@[a as int]@,
            total == rank(g, s, g.n as int),
            forall|b: int, c: int| 0 <= b < c < subjects@.len() ==> (#[trigger] subjects@[b])@ != (#[trigger] subjects@[c])@,
            group_of@.len() == g.n,
            local@.len() == g.n,
            forall|w: int|
                0 <= w < g.n ==> (#[trigger] group_of@[w]) < subjects@.len() && subjects@[group_of@[w] as int]@
                    == g.subject_of(w) && local@[w] == rank(g, g.subject_of(w), w),
            i <= g.n,
            outedges@.len() == rank(g, s, i as int),
            forall|x: int, j: int|
                0 <= x < outedges@.len() && 0 <= j < outedges@[x]@.len() ==> #[trigger] outedges@[x]@[j] < total,
            forall|x: int| 0 <= x < outedges@.len() ==> #[trigger] is_taken(g, s, x),
            forall|v: usize| #[trigger] reverse_map@.contains_key(v) <==> v < rank(g, s, i as int),
            forall|w: int|
                0 <= w < i && g.subject_of(w) == s ==> {
                    let x = #[trigger] rank(g, s, w) as int;
                    let id = g.reverse_map@[w as usize];
                    &&& outedges@[x]@ == local_targets(g, s, g.outedges@[w]@)
                    &&& reverse_map@[x as usize] == id
                    &&& node_data@.contains_key(id)
                    &&& node_data@[id].mapped_node == x
                    &&& node_data@[id].label@ == g.node_data@[id].label@
                    &&& node_data@[id].subject@ == g.node_data@[id].subject@
                    &&& node_data@[id].features@ == g.node_data@[id].features@
                },
            forall|id: usize|
                #[trigger] node_data@.contains_key(id) ==> exists|w: int|
                    0 <= w < i && g.subject_of(w) == s && g.reverse_map@[w as usize] == id,
        decreases g.n - i,
    {
        proof {
            lemma_rank_bound(g, s, i as int, g.n as int);
            lemma_rank_at_most(g, s, i as int);
        }
        if group_of[i] == a {
            let ghost ti = g.outedges@[i as int]@;
            let mut targets: Vec<Vertex> = Vec::new();
            let mut j: usize = 0;
            while j < g.outedges[i].len()
                invariant
                    g.wf(),
                    i < g.n,
                    a < subjects@.len(),
                    ti == g.outedges@[i as int]@,
                    s == subjects@[a as int]@,
                    total == rank(g, s, g.n as int),
                    forall|b: int, c: int| 0 <= b < c < subjects@.len() ==> (#[trigger] subjects@[b])@ != (#[trigger] subjects@[c])@,
                    group_of@.len() == g.n,
                    local@.len() == g.n,
                    forall|w: int|
                        0 <= w < g.n ==> (#[trigger] group_of@[w]) < subjects@.len() && subjects@[group_of@[w] as int]@
                            == g.subject_of(w) && local@[w] == rank(g, g.subject_of(w), w),
                    j <= ti.len(),
                    targets@ == local_targets(g, s, ti.subrange(0, j as int)),
                    forall|k: int| 0 <= k < targets@.len() ==> #[trigger] targets@[k] < total,
                decreases ti.len() - j,
            {
                let u = g.outedges[i][j];
                let ghost p = ti.subrange(0, j + 1);
                proof {
                    assert(p.drop_last() == ti.subrange(0, j as int));
                    assert(p.last() == u);
                    assert(u < g.n);
                    if g.subject_of(u as int) == s {
                        assert(subjects@[group_of@[u as int] as int]@ == s);
                        if group_of@[u as int] < a {
                            assert(subjects@[group_of@[u as int] as int]@ != subjects@[a as int]@);
                        }
                        if group_of@[u as int] > a {
                            assert(subjects@[a as int]@ != subjects@[group_of@[u as int] as int]@);
                        }
                    }
                }
                if group_of[u] == a {
                    proof {
                        lemma_rank_bound(g, s, u as int, g.n as int);
                    }
                    targets.push(local[u]);
                }
                j = j + 1;
            }
            proof {
                assert(ti.subrange(0, ti.len() as int) == ti);
            }
            let id = match g.reverse_map.get(&i) {
                Some(id) => *id,
                None => {
                    proof {
                        let ii = i as int;
                        assert(g.reverse_map@.contains_key(ii as usize));
                    }
                    0
                },
            };
            proof {
                let ii = i as int;
                assert(g.reverse_map@.contains_key(ii as usize));
                assert(g.node_data@.contains_key(id));
            }
            let data = match g.node_data.get(&id) {
                Some(d) => d,
                None => {
                    return Graph { n: 0, outedges, node_data, reverse_map };
                },
            };
            let x = local[i];
            let ghost old_nd = node_data@;
            let ghost old_out = outedges@;
            outedges.push(targets);
            let record = NodeData {
                mapped_node: x,
                label: data.label.clone(),
                subject: data.subject.clone(),
                features: copy_bytes(&data.features),
            };
            node_data.insert(id, record);
            reverse_map.insert(x, id);
            proof {
                assert(g.subject_of(i as int) == s);
                assert(x == rank(g, s, i as int));
                assert(outedges@[x as int] == old_out.push(targets)[x as int]);
                assert forall|w: int|
                    0 <= w < i + 1 && g.subject_of(w) == s implies {
                        let y = #[trigger] rank(g, s, w) as int;
                        let idw = g.reverse_map@[w as usize];
                        &&& outedges@[y]@ == local_targets(g, s, g.outedges@[w]@)
                        &&& reverse_map@[y as usize] == idw
                        &&& node_data@.contains_key(idw)
                        &&& node_data@[idw].mapped_node == y
                        &&& node_data@[idw].label@ == g.node_data@[idw].label@
                        &&& node_data@[idw].subject@ == g.node_data@[idw].subject@
                        &&& node_data@[idw].features@ == g.node_data@[idw].features@
                    } by {
                    if w < i {
                        lemma_rank_bound(g, s, w, i as int);
                        let idw = g.reverse_map@[w as usize];
                        assert(g.reverse_map@.contains_key(w as usize));
                        if idw == id {
                            assert(g.node_data@[idw].mapped_node == w);
                        }
                        let y = rank(g, s, w) as int;
                        assert(y < x);
                        assert(outedges@[y] == old_out[y]);
                        assert(node_data@[idw] == old_nd[idw]);
                    } else {
                        assert(w == i);
                        assert(node_data@[id] == record);
                        assert(data == g.node_data@[id]);
                    }
                }
                assert forall|id2: usize| #[trigger] node_data@.contains_key(id2) implies exists|w: int|
                    0 <= w < i + 1 && g.subject_of(w) == s && g.reverse_map@[w as usize] == id2 by {
                    if id2 == id {
                        assert(g.reverse_map@[i as usize] == id2);
                    }
                }
                assert forall|y: int| 0 <= y < outedges@.len() implies #[trigger] is_taken(g, s, y) by {
                    if y == x {
                        assert(rank(g, s, i as int) == y);
                    }
                }
            }
        }
        i = i + 1;
    }
    Graph { n: outedges.len(), outedges, node_data, reverse_map }
}

impl Graph {
    /// Parts the graph by the subject of its papers: one subgraph per
    /// subject, in the order of the subject's first vertex. A subgraph holds
    /// the papers of its subject, in their order, and the edges between
    /// them.
    pub fn calculate_subgraphs(self) -> (r: Vec<(String, Graph)>)
        requires
            self.wf(),
            self.records_consistent(),
        ensures
            forall|a: int, b: int| 0 <= a < b < r@.len() ==> (#[trigger] r@[a]).0@ != (#[trigger] r@[b]).0@,
            forall|i: int|
                #![trigger self.subject_of(i)]
                0 <= i < self.n ==> exists|a: int| 0 <= a < r@.len() && (#[trigger] r@[a]).0@ == self.subject_of(i),
            forall|a: int|
                0 <= a < r@.len() ==> rank(&self, (#[trigger] r@[a]).0@, self.n as int) > 0
                    && is_subject_subgraph(&self, r@[a].0@, &r@[a].1),
    {
        let (subjects, group_of, local) = group_by_subject(&self);
        let mut output: Vec<(String, Graph)> = Vec::new();
        let mut a: usize = 0;
        while a < subjects.len()
            invariant
                self.wf(),
                self.records_consistent(),
                forall|b: int, c: int| 0 <= b < c < subjects@.len() ==> (#[trigger] subjects@[b])@ != (#[trigger] subjects@[c])@,
                forall|b: int| 0 <= b < subjects@.len() ==> rank(&self, (#[trigger] subjects@[b])@, self.n as int) > 0,
                group_of@.len() == self.n,
                local@.len() == self.n,
                forall|w: int|
                    0 <= w < self.n ==> (#[trigger] group_of@[w]) < subjects@.len() && subjects@[group_of@[w] as int]@
                        == self.subject_of(w) && local@[w] == rank(&self, self.subject_of(w), w),
                a <= subjects@.len(),
                output@.len() == a,
                forall|b: int| 0 <= b < a ==> (#[trigger] output@[b]).0@ == subjects@[b]@,
                forall|b: int| 0 <= b < a ==> is_subject_subgraph(&self, subjects@[b]@, &(#[trigger] output@[b]).1),
            decreases subjects@.len() - a,
        {
            let sub = build_subgraph(&self, &subjects, &group_of, &local, a);
            output.push((subjects[a].clone(), sub));
            a = a + 1;
        }
        proof {
            assert forall|i: int| #![trigger self.subject_of(i)] 0 <= i < self.n implies exists|b: int|
                0 <= b < output@.len() && (#[trigger] output@[b]).0@ == self.subject_of(i) by {
                let b = group_of@[i] as int;
                assert(output@[b].0@ == subjects@[b]@);
            }
            assert forall|b: int, c: int| 0 <= b < c < output@.len() implies (#[trigger] output@[b]).0@
                != (#[trigger] output@[c]).0@ by {
                assert(subjects@[b]@ != subjects@[c]@);
            }
        }
        output
    }
}

} // verus!
