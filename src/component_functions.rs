use crate::graph::{Graph, Vertex};
use vstd::prelude::*;

verus! {

/// A component identifier: components are numbered `0, 1, 2, ...` in the
/// order in which their first vertex appears.
pub type Component = usize;

/// `p` is a walk along out-edges of `g`.
pub open spec fn is_path(g: &Graph, p: Seq<Vertex>) -> bool {
    &&& p.len() >= 1
    &&& forall|i: int| 0 <= i < p.len() - 1 ==> #[trigger] g.has_edge(p[i] as int, p[i + 1] as int)
}

/// `t` can be reached from `s` by following out-edges of `g`.
pub open spec fn reachable(g: &Graph, s: int, t: int) -> bool {
    exists|p: Seq<Vertex>| #[trigger] is_path(g, p) && p[0] == s && p.last() == t
}

/// Every labelled vertex has all its out-neighbours labelled, with an
/// identifier no larger than its own.
pub open spec fn closed(g: &Graph, labels: Seq<Option<Component>>) -> bool {
    forall|v: int, j: int|
        0 <= v < g.n && 0 <= j < g.outedges@[v]@.len() && (#[trigger] labels[v]) is Some
            ==> labels[#[trigger] g.outedges@[v]@[j] as int] is Some
            && labels[g.outedges@[v]@[j] as int].unwrap() <= labels[v].unwrap()
}

/// `s` is the first vertex of component `c`: every vertex before it belongs
/// to a component with a smaller identifier.
pub open spec fn is_root(labels: Seq<Option<Component>>, c: int, s: int) -> bool {
    &&& 0 <= s < labels.len()
    &&& labels[s] == Some(c as Component)
    &&& forall|w: int| 0 <= w < s ==> (#[trigger] labels[w]) is Some && labels[w].unwrap() < c
}

/// Component `c` has a first vertex.
pub open spec fn has_root(labels: Seq<Option<Component>>, c: int) -> bool {
    exists|s: int| #[trigger] is_root(labels, c, s)
}

/// `v` is reached from the first vertex of its component.
pub open spec fn reached_from_root(g: &Graph, labels: Seq<Option<Component>>, v: int) -> bool {
    exists|s: int| #[trigger] is_root(labels, labels[v].unwrap() as int, s) && reachable(g, s, v)
}

/// `labels` numbers the components of `g` as the breadth-first labelling
/// does: every vertex carries one of the identifiers `0..k`, each of them is
/// used, each vertex is reached from the first vertex of its component, and
/// no edge leads to a component with a larger identifier (so that on a
/// graph that holds the reverse of each of its edges, both ends of an edge
/// share their component).
pub open spec fn is_component_labeling(g: &Graph, labels: Seq<Option<Component>>, k: nat) -> bool {
    &&& labels.len() == g.n
    &&& k <= g.n
    &&& forall|v: int| 0 <= v < g.n ==> (#[trigger] labels[v]) is Some && labels[v].unwrap() < k
    &&& closed(g, labels)
    &&& forall|c: int| 0 <= c < k ==> #[trigger] has_root(labels, c)
    &&& forall|v: int| 0 <= v < g.n ==> #[trigger] reached_from_root(g, labels, v)
}

/// The number of vertices that carry no label yet.
pub open spec fn unlabeled(labels: Seq<Option<Component>>) -> nat
    decreases labels.len(),
{
    if labels.len() == 0 {
        0
    } else {
        unlabeled(labels.drop_last()) + if labels.last() is None {
            1nat
        } else {
            0nat
        }
    }
}

proof fn lemma_unlabeled_update(labels: Seq<Option<Component>>, i: int, c: Component)
    requires
        0 <= i < labels.len(),
        labels[i] is None,
    ensures
        unlabeled(labels.update(i, Some(c))) + 1 == unlabeled(labels),
    decreases labels.len(),
{
    let u = labels.update(i, Some(c));
    if i == labels.len() - 1 {
        assert(u.drop_last() == labels.drop_last());
    } else {
        assert(u.drop_last() == labels.drop_last().update(i, Some(c)));
        lemma_unlabeled_update(labels.drop_last(), i, c);
    }
}

proof fn lemma_reachable_self(g: &Graph, s: int)
    requires
        0 <= s < g.n,
    ensures
        reachable(g, s, s),
{
    let p = seq![s as Vertex];
    assert(is_path(g, p));
}

proof fn lemma_reachable_step(g: &Graph, s: int, v: int, j: int)
    requires
        g.wf(),
        0 <= v < g.n,
        0 <= j < g.outedges@[v]@.len(),
        reachable(g, s, v),
    ensures
        reachable(g, s, g.outedges@[v]@[j] as int),
{
    let u = g.outedges@[v]@[j];
    let p = choose|p: Seq<Vertex>| #[trigger] is_path(g, p) && p[0] == s && p.last() == v;
    let q = p.push(u);
    assert(g.has_edge(v, u as int)) by {
        assert(g.outedges@[v]@[j] == u);
    }
    assert forall|i: int| 0 <= i < q.len() - 1 implies #[trigger] g.has_edge(q[i] as int, q[i + 1] as int) by {
        if i < p.len() - 1 {
            assert(g.has_edge(p[i] as int, p[i + 1] as int));
        }
    }
    assert(is_path(g, q));
    assert(q[0] == s && q.last() == u);
}

/// `t` is reached from `s` along out-edges through vertices, after `s`,
/// that `labels` leaves unlabelled.
pub open spec fn reached_through_unlabelled(g: &Graph, labels: Seq<Option<Component>>, s: int, t: int) -> bool {
    exists|p: Seq<Vertex>|
        #[trigger] is_path(g, p) && p[0] == s && p.last() == t && forall|i: int|
            1 <= i < p.len() ==> (#[trigger] labels[p[i] as int]) is None
}

proof fn lemma_unlabelled_self(g: &Graph, labels: Seq<Option<Component>>, s: int)
    requires
        0 <= s < g.n,
    ensures
        reached_through_unlabelled(g, labels, s, s),
{
    let p = seq![s as Vertex];
    assert(is_path(g, p));
}

proof fn lemma_unlabelled_reaches(g: &Graph, labels: Seq<Option<Component>>, s: int, t: int)
    requires
        reached_through_unlabelled(g, labels, s, t),
    ensures
        reachable(g, s, t),
{
    let p = choose|p: Seq<Vertex>|
        #[trigger] is_path(g, p) && p[0] == s && p.last() == t && forall|i: int|
            1 <= i < p.len() ==> (#[trigger] labels[p[i] as int]) is None;
    assert(is_path(g, p) && p[0] == s && p.last() == t);
}

proof fn lemma_unlabelled_step(g: &Graph, labels: Seq<Option<Component>>, s: int, v: int, j: int)
    requires
        g.wf(),
        0 <= v < g.n,
        0 <= j < g.outedges@[v]@.len(),
        reached_through_unlabelled(g, labels, s, v),
        labels[g.outedges@[v]@[j] as int] is None,
    ensures
        reached_through_unlabelled(g, labels, s, g.outedges@[v]@[j] as int),
{
    let u = g.outedges@[v]@[j];
    let p = choose|p: Seq<Vertex>|
        #[trigger] is_path(g, p) && p[0] == s && p.last() == v && forall|i: int|
            1 <= i < p.len() ==> (#[trigger] labels[p[i] as int]) is None;
    let q = p.push(u);
    assert(g.has_edge(v, u as int)) by {
        assert(g.outedges@[v]@[j] == u);
    }
    assert forall|i: int| 0 <= i < q.len() - 1 implies #[trigger] g.has_edge(q[i] as int, q[i + 1] as int) by {
        if i < p.len() - 1 {
            assert(g.has_edge(p[i] as int, p[i + 1] as int));
        }
    }
    assert(is_path(g, q));
    assert forall|i: int| 1 <= i < q.len() implies (#[trigger] labels[q[i] as int]) is None by {
        if i < p.len() {
            assert(q[i] == p[i]);
        }
    }
    assert(q[0] == s && q.last() == u);
}

/// Along a path that leaves the start through unlabelled vertices, every
/// vertex ends in the queue of a traversal that has processed its queue.
proof fn lemma_unlabelled_path_in_queue(
    g: &Graph,
    old_labels: Seq<Option<Component>>,
    labels: Seq<Option<Component>>,
    queue: Seq<Vertex>,
    s: int,
    c: Component,
    p: Seq<Vertex>,
    i: int,
)
    requires
        g.wf(),
        old_labels.len() == g.n,
        labels.len() == g.n,
        0 <= s < g.n,
        is_path(g, p),
        p[0] == s,
        forall|k: int| 1 <= k < p.len() ==> (#[trigger] old_labels[p[k] as int]) is None,
        0 <= i < p.len(),
        queue.contains(s as Vertex),
        forall|k: int| 0 <= k < queue.len() ==> #[trigger] queue[k] < g.n,
        forall|k: int, m: int|
            0 <= k < queue.len() && 0 <= m < g.outedges@[queue[k] as int]@.len()
                ==> labels[#[trigger] g.outedges@[queue[k] as int]@[m] as int] is Some,
        forall|w: int|
            0 <= w < g.n && w != s && (#[trigger] old_labels[w]) is None ==> labels[w] is None || labels[w]
                == Some(c),
        forall|w: int|
            0 <= w < g.n && (old_labels[w] is None || w == s) && #[trigger] labels[w] == Some(c)
                ==> queue.contains(w as Vertex),
    ensures
        queue.contains(p[i]),
    decreases i,
{
    if i > 0 {
        lemma_unlabelled_path_in_queue(g, old_labels, labels, queue, s, c, p, i - 1);
        let k = choose|k: int| 0 <= k < queue.len() && queue[k] == p[i - 1];
        let h = i - 1;
        assert(g.has_edge(p[h] as int, p[h + 1] as int));
        let v = p[i - 1] as int;
        let m = choose|m: int| 0 <= m < g.outedges@[v]@.len() && g.outedges@[v]@[m] == p[i];
        assert(labels[g.outedges@[queue[k] as int]@[m] as int] is Some);
        let u = p[i] as int;
        assert(u < g.n);
        if u != s {
            assert(old_labels[u] is None);
            assert(labels[u] == Some(c));
        }
    }
}

/// The labels given before a traversal with identifier `c` that starts at
/// `vertex`: all smaller than `c`, none at `vertex`.
pub open spec fn fresh_start(labels: Seq<Option<Component>>, vertex: int, c: Component) -> bool {
    &&& labels[vertex] is None
    &&& forall|v: int| 0 <= v < labels.len() && (#[trigger] labels[v]) is Some ==> labels[v].unwrap() < c
}

/// Gives `component_no` to `vertex` and, in breadth-first order, to every
/// vertex reached from it along out-edges through vertices that had no
/// label; every other label stays as it was. Where the labels given
/// before are all smaller than `component_no`, none is at `vertex`, and
/// every labelled vertex had its out-neighbours labelled, that last
/// property still holds afterwards.
pub fn mark_component_bfs(
    vertex: Vertex,
    graph: &Graph,
    component: &mut Vec<Option<Component>>,
    component_no: Component,
)
    requires
        graph.wf(),
        old(component)@.len() == graph.n,
        vertex < graph.n,
    ensures
        final(component)@.len() == graph.n,
        final(component)@[vertex as int] == Some(component_no),
        forall|v: int|
            0 <= v < graph.n && v != vertex ==> match #[trigger] old(component)@[v] {
                Some(c) => final(component)@[v] == Some(c),
                None => final(component)@[v] is None || (final(component)@[v] == Some(component_no)
                    && reachable(graph, vertex as int, v)),
            },
        forall|u: int|
            0 <= u < graph.n ==> #[trigger] final(component)@[u] == if u == vertex
                || reached_through_unlabelled(graph, old(component)@, vertex as int, u) {
                Some(component_no)
            } else {
                old(component)@[u]
            },
        fresh_start(old(component)@, vertex as int, component_no) && closed(graph, old(component)@)
            ==> closed(graph, final(component)@),
{
    let ghost n = graph.n as int;
    let ghost fresh = fresh_start(old(component)@, vertex as int, component_no);
    proof {
        lemma_unlabelled_self(graph, old(component)@, vertex as int);
    }
    component.set(vertex, Some(component_no));
    let mut queue: Vec<Vertex> = Vec::new();
    queue.push(vertex);
    let mut head: usize = 0;
    proof {
        assert forall|w: int|
            0 <= w < n && (old(component)@[w] is None || w == vertex) && #[trigger] component@[w]
                == Some(component_no) implies queue@.contains(w as Vertex) by {
            assert(queue@[0] == vertex);
        }
        if fresh {
            assert forall|v: int|
                0 <= v < n && #[trigger] component@[v] == Some(component_no) implies queue@.contains(
                    v as Vertex,
                ) by {
                if v != vertex as int {
                    assert(old(component)@[v] == component@[v]);
                }
                assert(queue@[0] == vertex);
            }
        }
    }
    while head < queue.len()
        invariant
            graph.wf(),
            n == graph.n,
            component@.len() == n,
            head <= queue@.len(),
            queue@.len() >= 1,
            queue@[0] == vertex,
            vertex < n,
            old(component)@.len() == n,
            fresh == fresh_start(old(component)@, vertex as int, component_no),
            component@[vertex as int] == Some(component_no),
            forall|i: int|
                0 <= i < queue@.len() ==> #[trigger] queue@[i] < n && component@[queue@[i] as int]
                    == Some(component_no),
            fresh ==> forall|v: int|
                0 <= v < n && #[trigger] component@[v] == Some(component_no) ==> queue@.contains(
                    v as Vertex,
                ),
            forall|v: int|
                0 <= v < n && v != vertex ==> match #[trigger] old(component)@[v] {
                    Some(c) => component@[v] == Some(c),
                    None => component@[v] is None || (component@[v] == Some(component_no)
                        && reached_through_unlabelled(graph, old(component)@, vertex as int, v)),
                },
            forall|i: int, j: int|
                0 <= i < head && 0 <= j < graph.outedges@[queue@[i] as int]@.len()
                    ==> component@[#[trigger] graph.outedges@[queue@[i] as int]@[j] as int] is Some,
            forall|i: int| 0 <= i < queue@.len() ==> reached_through_unlabelled(graph, old(component)@, vertex as int, #[trigger] queue@[i] as int),
            forall|w: int|
                0 <= w < n && (old(component)@[w] is None || w == vertex) && #[trigger] component@[w]
                    == Some(component_no) ==> queue@.contains(w as Vertex),
        decreases unlabeled(component@) + (queue@.len() - head),
    {
        let v = queue[head];
        let ghost before = unlabeled(component@) + queue@.len();
        let mut j: usize = 0;
        while j < graph.outedges[v].len()
            invariant
                graph.wf(),
                n == graph.n,
                component@.len() == n,
                head < queue@.len(),
                v == queue@[head as int],
                queue@[0] == vertex,
                j <= graph.outedges@[v as int]@.len(),
                unlabeled(component@) + queue@.len() == before,
                vertex < n,
                old(component)@.len() == n,
                fresh == fresh_start(old(component)@, vertex as int, component_no),
                component@[vertex as int] == Some(component_no),
                forall|i: int|
                    0 <= i < queue@.len() ==> #[trigger] queue@[i] < n && component@[queue@[i] as int]
                        == Some(component_no),
                fresh ==> forall|w: int|
                    0 <= w < n && #[trigger] component@[w] == Some(component_no)
                        ==> queue@.contains(w as Vertex),
                forall|w: int|
                    0 <= w < n && w != vertex ==> match #[trigger] old(component)@[w] {
                        Some(c) => component@[w] == Some(c),
                        None => component@[w] is None || (component@[w] == Some(component_no)
                            && reached_through_unlabelled(graph, old(component)@, vertex as int, w)),
                    },
                forall|i: int, k: int|
                    0 <= i < head && 0 <= k < graph.outedges@[queue@[i] as int]@.len()
                        ==> component@[#[trigger] graph.outedges@[queue@[i] as int]@[k] as int] is Some,
                forall|k: int|
                    0 <= k < j ==> component@[#[trigger] graph.outedges@[v as int]@[k] as int] is Some,
                forall|i: int| 0 <= i < queue@.len() ==> reached_through_unlabelled(graph, old(component)@, vertex as int, #[trigger] queue@[i] as int),
                forall|w: int|
                    0 <= w < n && (old(component)@[w] is None || w == vertex) && #[trigger] component@[w]
                        == Some(component_no) ==> queue@.contains(w as Vertex),
            decreases graph.outedges@[v as int]@.len() - j,
        {
            let u = graph.outedges[v][j];
            if component[u].is_none() {
                proof {
                    lemma_unlabeled_update(component@, u as int, component_no);
                    assert(reached_through_unlabelled(graph, old(component)@, vertex as int, queue@[head as int] as int));
                    lemma_unlabelled_step(graph, old(component)@, vertex as int, v as int, j as int);
                }
                let ghost q0 = queue@;
                component.set(u, Some(component_no));
                queue.push(u);
                proof {
                    assert(queue@[queue@.len() - 1] == u);
                    assert forall|i: int| 0 <= i < queue@.len() implies reachable(
                        graph,
                        vertex as int,
                        #[trigger] queue@[i] as int,
                    ) by {
                        if i < q0.len() {
                            assert(queue@[i] == q0[i]);
                        }
                    }
                    assert forall|w: int|
                        0 <= w < n && (old(component)@[w] is None || w == vertex) && #[trigger] component@[w]
                            == Some(component_no) implies queue@.contains(w as Vertex) by {
                        if w != u as int {
                            assert(q0.contains(w as Vertex));
                            let i = choose|i: int| 0 <= i < q0.len() && q0[i] == w as Vertex;
                            assert(queue@[i] == w as Vertex);
                        }
                    }
                    if fresh {
                        assert forall|w: int|
                            0 <= w < n && #[trigger] component@[w] == Some(component_no)
                                implies queue@.contains(w as Vertex) by {
                            if w != u as int {
                                assert(q0.contains(w as Vertex));
                                let i = choose|i: int| 0 <= i < q0.len() && q0[i] == w as Vertex;
                                assert(queue@[i] == w as Vertex);
                            }
                        }
                    }
                }
            }
            j = j + 1;
        }
        head = head + 1;
    }
    proof {
        if fresh && closed(graph, old(component)@) {
            assert forall|w: int, j: int|
                0 <= w < graph.n && 0 <= j < graph.outedges@[w]@.len() && (#[trigger] component@[w]) is Some
                    implies component@[#[trigger] graph.outedges@[w]@[j] as int] is Some
                    && component@[graph.outedges@[w]@[j] as int].unwrap() <= component@[w].unwrap() by {
                let u = graph.outedges@[w]@[j] as int;
                if component@[w] == Some(component_no) {
                    assert(queue@.contains(w as Vertex));
                    let i = choose|i: int| 0 <= i < queue@.len() && queue@[i] == w as Vertex;
                    assert(component@[graph.outedges@[queue@[i] as int]@[j] as int] is Some);
                    assert(component@[u] is Some);
                    if old(component)@[u] is Some && u != vertex {
                        assert(old(component)@[u].unwrap() < component_no);
                    }
                } else {
                    assert(w != vertex);
                    assert(old(component)@[w] is Some);
                    assert(old(component)@[w] == component@[w]);
                    assert(old(component)@[u] is Some);
                    assert(u != vertex);
                }
            }
        }
    }
    proof {
        assert forall|u: int| 0 <= u < graph.n implies #[trigger] component@[u] == if u == vertex
            || reached_through_unlabelled(graph, old(component)@, vertex as int, u) {
            Some(component_no)
        } else {
            old(component)@[u]
        } by {
            if u != vertex && reached_through_unlabelled(graph, old(component)@, vertex as int, u) {
                let p = choose|p: Seq<Vertex>|
                    #[trigger] is_path(graph, p) && p[0] == vertex as int && p.last() == u && forall|i: int|
                        1 <= i < p.len() ==> (#[trigger] old(component)@[p[i] as int]) is None;
                assert(queue@[0] == vertex);
                lemma_unlabelled_path_in_queue(
                    graph,
                    old(component)@,
                    component@,
                    queue@,
                    vertex as int,
                    component_no,
                    p,
                    p.len() - 1,
                );
                let i = choose|i: int| 0 <= i < queue@.len() && queue@[i] == u as Vertex;
            }
        }
        assert forall|v: int| 0 <= v < graph.n && v != vertex && (#[trigger] old(component)@[v]) is None
            && component@[v] == Some(component_no) implies reachable(graph, vertex as int, v) by {
            lemma_unlabelled_reaches(graph, old(component)@, vertex as int, v);
        }
    }

}

/// What one traversal adds keeps the labelling's invariants: roots stay
/// roots, the new component's root is the seed, and every vertex stays
/// reached from its root.
proof fn lemma_labeling_step(
    g: &Graph,
    before: Seq<Option<Component>>,
    after: Seq<Option<Component>>,
    v: int,
    count: int,
)
    requires
        g.wf(),
        0 <= v < g.n,
        0 <= count <= v,
        before.len() == g.n,
        after.len() == g.n,
        before[v] is None,
        after[v] == Some(count as Component),
        forall|w: int| 0 <= w < v ==> (#[trigger] before[w]) is Some,
        forall|w: int|
            0 <= w < g.n && (#[trigger] before[w]) is Some ==> before[w].unwrap() < count,
        forall|c: int| 0 <= c < count ==> #[trigger] has_root(before, c),
        forall|w: int|
            0 <= w < g.n && (#[trigger] before[w]) is Some ==> reached_from_root(g, before, w),
        forall|w: int|
            0 <= w < g.n && w != v ==> match #[trigger] before[w] {
                Some(c) => after[w] == Some(c),
                None => after[w] is None || (after[w] == Some(count as Component) && reachable(
                    g,
                    v,
                    w,
                )),
            },
    ensures
        forall|w: int| 0 <= w <= v ==> (#[trigger] after[w]) is Some,
        forall|w: int|
            0 <= w < g.n && (#[trigger] after[w]) is Some ==> after[w].unwrap() < count + 1,
        forall|c: int| 0 <= c <= count ==> #[trigger] has_root(after, c),
        forall|w: int|
            0 <= w < g.n && (#[trigger] after[w]) is Some ==> reached_from_root(g, after, w),
{
    assert forall|w: int| 0 <= w < g.n && (#[trigger] after[w]) is Some implies after[w].unwrap()
        < count + 1 by {
        if before[w] is Some {
        } else {
            assert(after[w] == Some(count as Component));
        }
    }
    assert forall|w: int| 0 <= w < v implies (#[trigger] after[w]) is Some && after[w].unwrap()
        < count by {
        assert(before[w] is Some);
    }
    assert(is_root(after, count, v));
    assert forall|c: int| 0 <= c <= count implies #[trigger] has_root(after, c) by {
        if c < count {
            assert(has_root(before, c));
            let s = choose|s: int| #[trigger] is_root(before, c, s);
            assert(before[s] == after[s]);
            assert forall|w: int| 0 <= w < s implies (#[trigger] after[w]) is Some && after[w].unwrap()
                < c by {
                assert(before[w] is Some);
            }
            assert(is_root(after, c, s));
        } else {
            assert(is_root(after, c, v));
        }
    }
    assert forall|w: int| 0 <= w < g.n && (#[trigger] after[w]) is Some implies reached_from_root(
        g,
        after,
        w,
    ) by {
        if before[w] is Some {
            assert(reached_from_root(g, before, w));
            let c = before[w].unwrap() as int;
            let s = choose|s: int| #[trigger] is_root(before, c, s) && reachable(g, s, w);
            assert(before[s] == after[s]);
            assert forall|x: int| 0 <= x < s implies (#[trigger] after[x]) is Some && after[x].unwrap()
                < c by {
                assert(before[x] is Some);
            }
            assert(is_root(after, after[w].unwrap() as int, s));
        } else {
            assert(is_root(after, after[w].unwrap() as int, v));
            if w == v {
                lemma_reachable_self(g, v);
            }
            assert(reachable(g, v, w));
        }
    }
}

impl Graph {
    /// Labels every vertex with its component, scanning the vertices in
    /// order and starting a breadth-first traversal along out-edges at each
    /// one that is still unlabelled. Returns the labels and the number of
    /// components.
    pub fn connected_components(&self) -> (r: (Vec<Option<Component>>, usize))
        requires
            self.wf(),
        ensures
            is_component_labeling(self, r.0@, r.1 as nat),
    {
        let n = self.n;
        let mut component: Vec<Option<Component>> = Vec::new();
        let mut i: usize = 0;
        while i < n
            invariant
                i <= n,
                component@.len() == i,
                forall|w: int| 0 <= w < i ==> (#[trigger] component@[w]) is None,
            decreases n - i,
        {
            component.push(None);
            i = i + 1;
        }
        let mut component_count: usize = 0;
        let mut v: usize = 0;
        while v < n
            invariant
                self.wf(),
                n == self.n,
                v <= n,
                component_count <= v,
                component@.len() == n,
                forall|w: int| 0 <= w < v ==> (#[trigger] component@[w]) is Some,
                forall|w: int|
                    0 <= w < n && (#[trigger] component@[w]) is Some ==> component@[w].unwrap()
                        < component_count,
                closed(self, component@),
                forall|c: int| 0 <= c < component_count ==> #[trigger] has_root(component@, c),
                forall|w: int|
                    0 <= w < n && (#[trigger] component@[w]) is Some ==> reached_from_root(
                        self,
                        component@,
                        w,
                    ),
            decreases n - v,
        {
            if component[v].is_none() {
                let ghost before = component@;
                proof {
                    assert(fresh_start(before, v as int, component_count));
                }
                mark_component_bfs(v, self, &mut component, component_count);
                proof {
                    lemma_labeling_step(self, before, component@, v as int, component_count as int);
                }
                component_count = component_count + 1;
            }
            v = v + 1;
        }
        (component, component_count)
    }
}

/// The vertices that carry the label `c`.
pub open spec fn members(labels: Seq<Option<Component>>, c: int) -> Set<int> {
    Set::new(|v: int| 0 <= v < labels.len() && labels[v] == Some(c as Component))
}

/// Component `c` holds a vertex.
pub open spec fn has_member(labels: Seq<Option<Component>>, c: int) -> bool {
    exists|v: int| #[trigger] members(labels, c).contains(v)
}

/// The components of a labelling partition the vertices: each component
/// has a vertex, no vertex lies in two components, and every vertex lies
/// in one of them.
pub proof fn lemma_components_partition(g: &Graph, labels: Seq<Option<Component>>, k: nat)
    requires
        is_component_labeling(g, labels, k),
    ensures
        forall|c: int| 0 <= c < k ==> #[trigger] has_member(labels, c),
        forall|c: int, d: int|
            0 <= c < k && 0 <= d < k && c != d ==> #[trigger] members(labels, c).disjoint(
                #[trigger] members(labels, d),
            ),
        forall|v: int|
            0 <= v < g.n ==> (#[trigger] labels[v]) is Some && labels[v].unwrap() < k && members(
                labels,
                labels[v].unwrap() as int,
            ).contains(v),
{
    assert forall|c: int| 0 <= c < k implies #[trigger] has_member(labels, c) by {
        assert(has_root(labels, c));
        let s = choose|s: int| #[trigger] is_root(labels, c, s);
        assert(members(labels, c).contains(s));
    }
    assert forall|c: int, d: int|
        0 <= c < k && 0 <= d < k && c != d implies #[trigger] members(labels, c).disjoint(
        #[trigger] members(labels, d),
    ) by {
        assert forall|a: int| !(members(labels, c).contains(a) && members(labels, d).contains(a)) by {
            if members(labels, c).contains(a) && members(labels, d).contains(a) {
                assert(labels[a] == Some(c as Component));
                assert(labels[a] == Some(d as Component));
            }
        }
    }
    assert forall|v: int| 0 <= v < g.n implies (#[trigger] labels[v]) is Some && labels[v].unwrap() < k
        && members(labels, labels[v].unwrap() as int).contains(v) by {
        assert(labels[v] is Some);
    }
}

/// On a graph whose vertices `0..n` form a cycle travelled both ways
/// (each vertex has an edge to the next one, and the next one back), the
/// labelling finds a single component.
pub proof fn lemma_cycle_single_component(g: &Graph, labels: Seq<Option<Component>>, k: nat)
    requires
        g.wf(),
        g.n >= 1,
        is_component_labeling(g, labels, k),
        forall|v: int|
            0 <= v < g.n ==> #[trigger] g.has_edge(v, (v + 1) % (g.n as int)) && g.has_edge(
                (v + 1) % (g.n as int),
                v,
            ),
    ensures
        k == 1,
{
    let n = g.n as int;
    assert forall|v: int| 0 <= v < n implies #[trigger] labels[v] == labels[0] by {
        lemma_cycle_prefix_same(g, labels, k, v);
    }
    assert(labels[0] is Some && labels[0].unwrap() < k);
    if k > 1 {
        let c0 = labels[0].unwrap() as int;
        let other = if c0 == 0 { 1int } else { 0int };
        assert(has_root(labels, other));
        let s = choose|s: int| #[trigger] is_root(labels, other, s);
        assert(labels[s] == labels[0]);
    }
}

/// Where an edge runs both ways between two vertices, the labelling puts
/// them in one component.
pub proof fn lemma_mutual_edge_same_component(
    g: &Graph,
    labels: Seq<Option<Component>>,
    k: nat,
    v: int,
    u: int,
)
    requires
        g.wf(),
        is_component_labeling(g, labels, k),
        0 <= v < g.n,
        0 <= u < g.n,
        g.has_edge(v, u),
        g.has_edge(u, v),
    ensures
        labels[v] == labels[u],
{
    lemma_edge_labels(g, labels, k, v, u);
    lemma_edge_labels(g, labels, k, u, v);
}

/// Every vertex on the `true` side carries `a`, every other one `b`.
pub open spec fn labels_by_side(labels: Seq<Option<Component>>, side: Seq<bool>, a: Component, b: Component) -> bool {
    forall|v: int| 0 <= v < side.len() ==> #[trigger] labels[v] == if side[v] {
        Some(a)
    } else {
        Some(b)
    }
}

/// Along a walk of a graph whose edges all run both ways and never join
/// vertices of different sides, every vertex has the label and the side of
/// the first.
proof fn lemma_walk_keeps_label_and_side(
    g: &Graph,
    labels: Seq<Option<Component>>,
    k: nat,
    side: Seq<bool>,
    p: Seq<Vertex>,
    i: int,
)
    requires
        g.wf(),
        is_component_labeling(g, labels, k),
        side.len() == g.n,
        forall|v: int, u: int| 0 <= v < g.n && 0 <= u < g.n && #[trigger] g.has_edge(v, u) ==> g.has_edge(u, v),
        forall|v: int, u: int|
            0 <= v < g.n && 0 <= u < g.n && #[trigger] g.has_edge(v, u) ==> side[v] == side[u],
        is_path(g, p),
        p[0] < g.n,
        0 <= i < p.len(),
    ensures
        p[i] < g.n,
        labels[p[i] as int] == labels[p[0] as int],
        side[p[i] as int] == side[p[0] as int],
    decreases i,
{
    if i > 0 {
        lemma_walk_keeps_label_and_side(g, labels, k, side, p, i - 1);
        let h = i - 1;
        assert(g.has_edge(p[h] as int, p[h + 1] as int));
        let v = p[h] as int;
        let j = choose|j: int| 0 <= j < g.outedges@[v]@.len() && g.outedges@[v]@[j] == p[i];
        assert(g.outedges@[v]@[j] < g.n);
        lemma_mutual_edge_same_component(g, labels, k, v, p[i] as int);
    }
}

/// On a graph whose vertices fall in two sides, each with a vertex, where
/// every edge runs both ways, no edge joins the two sides, and the vertices
/// of each side reach one another, the labelling finds exactly two
/// components: one side carries one label, the other side the other.
pub proof fn lemma_two_clusters(g: &Graph, labels: Seq<Option<Component>>, k: nat, side: Seq<bool>)
    requires
        g.wf(),
        is_component_labeling(g, labels, k),
        side.len() == g.n,
        exists|x: int| 0 <= x < g.n && #[trigger] side[x],
        exists|y: int| 0 <= y < g.n && !#[trigger] side[y],
        forall|v: int, u: int| 0 <= v < g.n && 0 <= u < g.n && #[trigger] g.has_edge(v, u) ==> g.has_edge(u, v),
        forall|v: int, u: int|
            0 <= v < g.n && 0 <= u < g.n && #[trigger] g.has_edge(v, u) ==> side[v] == side[u],
        forall|v: int, u: int|
            0 <= v < g.n && 0 <= u < g.n && side[v] == side[u] ==> #[trigger] reachable(g, v, u),
    ensures
        k == 2,
        exists|a: Component, b: Component| a != b && #[trigger] labels_by_side(labels, side, a, b),
{
    let x = choose|x: int| 0 <= x < g.n && #[trigger] side[x];
    let y = choose|y: int| 0 <= y < g.n && !#[trigger] side[y];
    assert(labels[x] is Some && labels[y] is Some);
    let a = labels[x].unwrap();
    let b = labels[y].unwrap();
    assert forall|v: int| 0 <= v < g.n implies #[trigger] labels[v] == if side[v] {
        Some(a)
    } else {
        Some(b)
    } by {
        let w = if side[v] { x } else { y };
        assert(reachable(g, w, v));
        let p = choose|p: Seq<Vertex>| #[trigger] is_path(g, p) && p[0] == w && p.last() == v;
        lemma_walk_keeps_label_and_side(g, labels, k, side, p, p.len() - 1);
    }
    if a == b {
        assert(reached_from_root(g, labels, x));
        assert(reached_from_root(g, labels, y));
        let s1 = choose|s: int| #[trigger] is_root(labels, labels[x].unwrap() as int, s) && reachable(g, s, x);
        let s2 = choose|s: int| #[trigger] is_root(labels, labels[y].unwrap() as int, s) && reachable(g, s, y);
        if s1 < s2 {
            assert(labels[s1] is Some && labels[s1].unwrap() < a);
        } else if s2 < s1 {
            assert(labels[s2] is Some && labels[s2].unwrap() < a);
        } else {
            let p1 = choose|p: Seq<Vertex>| #[trigger] is_path(g, p) && p[0] == s1 && p.last() == x;
            let p2 = choose|p: Seq<Vertex>| #[trigger] is_path(g, p) && p[0] == s2 && p.last() == y;
            lemma_walk_keeps_label_and_side(g, labels, k, side, p1, p1.len() - 1);
            lemma_walk_keeps_label_and_side(g, labels, k, side, p2, p2.len() - 1);
        }
    }
    assert(labels_by_side(labels, side, a, b));
    assert(a < k && b < k);
    if k > 2 {
        assert forall|c: int| 0 <= c < k implies #[trigger] has_root(labels, c) && (c == a || c == b) by {
            assert(has_root(labels, c));
            let s = choose|s: int| #[trigger] is_root(labels, c, s);
            assert(labels[s] == if side[s] { Some(a) } else { Some(b) });
        }
        assert(has_root(labels, 0));
        assert(has_root(labels, 1));
        assert(has_root(labels, 2));
        assert(0int == a || 0int == b);
        assert(1int == a || 1int == b);
        assert(2int == a || 2int == b);
    }
}

proof fn lemma_edge_labels(g: &Graph, labels: Seq<Option<Component>>, k: nat, v: int, u: int)
    requires
        g.wf(),
        is_component_labeling(g, labels, k),
        0 <= v < g.n,
        0 <= u < g.n,
        g.has_edge(v, u),
    ensures
        labels[u] is Some,
        labels[u].unwrap() <= labels[v].unwrap(),
{
    let j = choose|j: int| 0 <= j < g.outedges@[v]@.len() && g.outedges@[v]@[j] == u as Vertex;
    assert(labels[v] is Some);
    assert(labels[g.outedges@[v]@[j] as int] is Some);
    assert(g.outedges@[v]@[j] < g.n);
}

proof fn lemma_cycle_prefix_same(g: &Graph, labels: Seq<Option<Component>>, k: nat, v: int)
    requires
        g.wf(),
        g.n >= 1,
        is_component_labeling(g, labels, k),
        forall|w: int|
            0 <= w < g.n ==> #[trigger] g.has_edge(w, (w + 1) % (g.n as int)) && g.has_edge(
                (w + 1) % (g.n as int),
                w,
            ),
        0 <= v < g.n,
    ensures
        labels[v] == labels[0],
    decreases v,
{
    if v > 0 {
        let n = g.n as int;
        lemma_cycle_prefix_same(g, labels, k, v - 1);
        assert((v - 1 + 1) % n == v) by {
            vstd::arithmetic::div_mod::lemma_small_mod(v as nat, n as nat);
        }
        assert(g.has_edge(v - 1, v) && g.has_edge(v, v - 1));
        lemma_mutual_edge_same_component(g, labels, k, v - 1, v);
    }
}

/// The number of vertices that carry the label `c`.
pub open spec fn count_label(labels: Seq<Option<Component>>, c: int) -> nat
    decreases labels.len(),
{
    if labels.len() == 0 {
        0
    } else {
        count_label(labels.drop_last(), c) + if labels.last() == Some(c as Component) {
            1nat
        } else {
            0nat
        }
    }
}

/// The sum of a sequence of counts.
pub open spec fn sum(s: Seq<usize>) -> int
    decreases s.len(),
{
    if s.len() == 0 {
        0
    } else {
        sum(s.drop_last()) + s.last()
    }
}

/// The count table of a labelling: entry `c` is the size of component `c`.
pub open spec fn count_table_of(labels: Seq<Option<Component>>, k: nat) -> Seq<usize> {
    Seq::new(k, |c: int| count_label(labels, c) as usize)
}

/// Every vertex carries a label below `k`.
pub open spec fn labels_below(labels: Seq<Option<Component>>, k: nat) -> bool {
    forall|v: int| 0 <= v < labels.len() ==> (#[trigger] labels[v]) is Some && labels[v].unwrap() < k
}

proof fn lemma_sum_increment(s: Seq<usize>, i: int)
    requires
        0 <= i < s.len(),
        s[i] < usize::MAX,
    ensures
        sum(s.update(i, (s[i] + 1) as usize)) == sum(s) + 1,
    decreases s.len(),
{
    let u = s.update(i, (s[i] + 1) as usize);
    if i == s.len() - 1 {
        assert(u.drop_last() == s.drop_last());
    } else {
        assert(u.drop_last() == s.drop_last().update(i, (s[i] + 1) as usize));
        lemma_sum_increment(s.drop_last(), i);
    }
}

/// The size of each component `0..num_components`. Every vertex must carry
/// a label below `num_components`.
pub fn count_components(component: &Vec<Option<Component>>, num_components: usize) -> (r: Vec<usize>)
    requires
        labels_below(component@, num_components as nat),
    ensures
        r@.len() == num_components,
        forall|c: int| 0 <= c < num_components ==> #[trigger] r@[c] == count_label(component@, c),
        sum(r@) == component@.len(),
{
    let mut component_counts: Vec<usize> = Vec::new();
    let mut c: usize = 0;
    while c < num_components
        invariant
            c <= num_components,
            component_counts@.len() == c,
            forall|d: int| 0 <= d < c ==> #[trigger] component_counts@[d] == 0,
            sum(component_counts@) == 0,
        decreases num_components - c,
    {
        proof {
            assert(component_counts@.push(0).drop_last() == component_counts@);
        }
        component_counts.push(0);
        c = c + 1;
    }
    let mut v: usize = 0;
    while v < component.len()
        invariant
            labels_below(component@, num_components as nat),
            v <= component@.len(),
            component_counts@.len() == num_components,
            forall|d: int|
                0 <= d < num_components ==> #[trigger] component_counts@[d] == count_label(
                    component@.subrange(0, v as int),
                    d,
                ),
            sum(component_counts@) == v,
        decreases component@.len() - v,
    {
        let label = component[v];
        let c = match label {
            Some(c) => c,
            None => {
                proof {
                    assert(component@[v as int] is Some);
                }
                0
            },
        };
        proof {
            let pre = component@.subrange(0, v as int);
            let post = component@.subrange(0, v + 1);
            assert(post.drop_last() == pre);
            assert(post.last() == Some(c));
            lemma_count_label_bound(pre, c as int);
            lemma_sum_increment(component_counts@, c as int);
        }
        component_counts.set(c, component_counts[c] + 1);
        v = v + 1;
    }
    proof {
        assert(component@.subrange(0, component@.len() as int) == component@);
    }
    component_counts
}

/// No label is carried by more vertices than there are.
pub proof fn lemma_count_label_bound(labels: Seq<Option<Component>>, c: int)
    ensures
        count_label(labels, c) <= labels.len(),
    decreases labels.len(),
{
    if labels.len() > 0 {
        lemma_count_label_bound(labels.drop_last(), c);
    }
}

/// The sizes of the pairs `(component, size)`, in order.
pub open spec fn sizes(pairs: Seq<(Component, usize)>) -> Seq<usize> {
    pairs.map_values(|p: (Component, usize)| p.1)
}

/// Component `c` has a pair in `pairs`.
pub open spec fn lists(pairs: Seq<(Component, usize)>, c: int) -> bool {
    exists|i: int| 0 <= i < pairs.len() && #[trigger] pairs[i].0 == c
}

/// `pairs` lists each component `0..counts.len()` once with its size, the
/// largest first.
pub open spec fn is_size_order(counts: Seq<usize>, pairs: Seq<(Component, usize)>) -> bool {
    &&& pairs.len() == counts.len()
    &&& forall|c: int| 0 <= c < counts.len() ==> #[trigger] lists(pairs, c)
    &&& forall|i: int|
        0 <= i < pairs.len() ==> (#[trigger] pairs[i]).0 < counts.len() && pairs[i].1
            == counts[pairs[i].0 as int]
    &&& forall|i: int, j: int| 0 <= i < j < pairs.len() ==> (#[trigger] pairs[i]).0 != (#[trigger] pairs[j]).0
    &&& forall|i: int, j: int| 0 <= i <= j < pairs.len() ==> (#[trigger] pairs[i]).1 >= (#[trigger] pairs[j]).1
}

proof fn lemma_sum_insert(s: Seq<usize>, p: int, x: usize)
    requires
        0 <= p <= s.len(),
    ensures
        sum(s.insert(p, x)) == sum(s) + x,
    decreases s.len(),
{
    if p == s.len() {
        assert(s.insert(p, x).drop_last() == s);
    } else {
        assert(s.insert(p, x).drop_last() == s.drop_last().insert(p, x));
        lemma_sum_insert(s.drop_last(), p, x);
    }
}

/// Pairs each component with its size and orders the pairs by size, the
/// largest first; components of equal size keep their order.
pub fn components_by_size(counts: &Vec<usize>) -> (r: Vec<(Component, usize)>)
    ensures
        is_size_order(counts@, r@),
        forall|a: int, b: int|
            0 <= a < b < r@.len() && (#[trigger] r@[a]).1 == (#[trigger] r@[b]).1 ==> r@[a].0 < r@[b].0,
        sum(sizes(r@)) == sum(counts@),
{
    let mut sorted: Vec<(Component, usize)> = Vec::new();
    let mut i: usize = 0;
    while i < counts.len()
        invariant
            i <= counts@.len(),
            sorted@.len() == i,
            forall|a: int|
                0 <= a < sorted@.len() ==> (#[trigger] sorted@[a]).0 < i && sorted@[a].1
                    == counts@[sorted@[a].0 as int],
            forall|a: int, b: int|
                0 <= a < b < sorted@.len() ==> (#[trigger] sorted@[a]).0 != (#[trigger] sorted@[b]).0,
            forall|a: int, b: int|
                0 <= a <= b < sorted@.len() ==> (#[trigger] sorted@[a]).1 >= (#[trigger] sorted@[b]).1,
            sum(sizes(sorted@)) == sum(counts@.subrange(0, i as int)),
            forall|c: int| 0 <= c < i ==> #[trigger] lists(sorted@, c),
            forall|a: int, b: int|
                0 <= a < b < sorted@.len() && (#[trigger] sorted@[a]).1 == (#[trigger] sorted@[b]).1
                    ==> sorted@[a].0 < sorted@[b].0,
        decreases counts@.len() - i,
    {
        let x = counts[i];
        let mut p: usize = 0;
        while p < sorted.len() && sorted[p].1 >= x
            invariant
                p <= sorted@.len(),
                forall|a: int| 0 <= a < p ==> (#[trigger] sorted@[a]).1 >= x,
            decreases sorted@.len() - p,
        {
            p = p + 1;
        }
        let ghost old_sorted = sorted@;
        proof {
            assert(sizes(old_sorted.insert(p as int, (i, x))) == sizes(old_sorted).insert(p as int, x));
            lemma_sum_insert(sizes(old_sorted), p as int, x);
            let pre = counts@.subrange(0, i as int);
            let post = counts@.subrange(0, i + 1);
            assert(post.drop_last() == pre);
        }
        sorted.insert(p, (i, x));
        proof {
            assert forall|a: int, b: int|
                0 <= a < b < sorted@.len() && (#[trigger] sorted@[a]).1 == (#[trigger] sorted@[b]).1
                    implies sorted@[a].0 < sorted@[b].0 by {
                if b == p as int {
                    assert(sorted@[a] == old_sorted[a]);
                } else if a == p as int {
                    assert(old_sorted[b - 1].1 == x);
                    assert(old_sorted[p as int].1 < x);
                    assert(old_sorted[p as int].1 >= old_sorted[b - 1].1);
                } else if a < p && b > p {
                    assert(sorted@[b] == old_sorted[b - 1]);
                    assert(old_sorted[a].1 == old_sorted[b - 1].1);
                } else if a > p {
                    assert(sorted@[a] == old_sorted[a - 1]);
                    assert(sorted@[b] == old_sorted[b - 1]);
                }
            }
            assert forall|c: int| 0 <= c < i + 1 implies #[trigger] lists(sorted@, c) by {
                if c == i {
                    assert(sorted@[p as int].0 == c);
                } else {
                    assert(lists(old_sorted, c));
                    let a = choose|a: int| 0 <= a < old_sorted.len() && #[trigger] old_sorted[a].0 == c;
                    if a < p {
                        assert(sorted@[a].0 == c);
                    } else {
                        assert(sorted@[a + 1].0 == c);
                    }
                }
            }
            assert forall|a: int, b: int| 0 <= a <= b < sorted@.len() implies (#[trigger] sorted@[a]).1
                >= (#[trigger] sorted@[b]).1 by {
                if p < old_sorted.len() {
                    assert(old_sorted[p as int].1 < x);
                }
                if a < p as int && b > p as int {
                    assert(old_sorted[a].1 >= old_sorted[b - 1].1);
                }
                if a == p as int && b > p as int {
                    assert(old_sorted[p as int].1 >= old_sorted[b - 1].1);
                }
            }
        }
        i = i + 1;
    }
    proof {
        assert(counts@.subrange(0, counts@.len() as int) == counts@);
    }
    sorted
}

/// `curve` holds the running totals of `s`: entry `i` is the sum of the
/// first `i` entries of `s`.
pub open spec fn is_running_total(curve: Seq<usize>, s: Seq<usize>) -> bool {
    &&& curve.len() == s.len() + 1
    &&& forall|i: int| 0 <= i <= s.len() ==> #[trigger] curve[i] == sum(s.subrange(0, i))
}

proof fn lemma_sum_prefix_bound(s: Seq<usize>, i: int)
    requires
        0 <= i <= s.len(),
    ensures
        0 <= sum(s.subrange(0, i)) <= sum(s),
    decreases s.len(),
{
    if s.len() > 0 {
        if i == s.len() {
            assert(s.subrange(0, i) == s);
            lemma_sum_prefix_bound(s.drop_last(), i - 1);
            assert(s.drop_last().subrange(0, i - 1) == s.drop_last());
        } else {
            lemma_sum_prefix_bound(s.drop_last(), i);
            assert(s.drop_last().subrange(0, i) == s.subrange(0, i));
        }
    }
}

/// The coverage curve of a labelling, as counts of vertices: entry `i` is
/// the number of vertices in the first `i` components, taken by size, the
/// largest first, when `sort` holds, and by identifier otherwise. Its
/// fraction of the whole is that count divided by the number of vertices.
/// With no vertex the curve is empty.
pub fn get_component_scale(component: &Vec<Option<Component>>, num_components: usize, sort: bool) -> (r: Vec<usize>)
    requires
        labels_below(component@, num_components as nat),
    ensures
        component@.len() == 0 ==> r@.len() == 0,
        component@.len() > 0 ==> {
            &&& r@.len() == num_components + 1
            &&& r@[0] == 0
            &&& r@[num_components as int] == component@.len()
            &&& forall|i: int, j: int| 0 <= i <= j < r@.len() ==> #[trigger] r@[i] <= #[trigger] r@[j]
        },
        component@.len() > 0 && !sort ==> is_running_total(
            r@,
            count_table_of(component@, num_components as nat),
        ),
        component@.len() > 0 && sort ==> exists|order: Seq<(Component, usize)>|
            #[trigger] is_size_order(count_table_of(component@, num_components as nat), order)
                && is_running_total(r@, sizes(order)),
{
    let component_counts = count_components(component, num_components);
    let order = components_by_size(&component_counts);
    let mut aggregate: Vec<usize> = Vec::new();
    let total = component.len();
    if total == 0 {
        return aggregate;
    }
    proof {
        assert(component_counts@ == count_table_of(component@, num_components as nat));
    }
    let ghost ordered = if sort { sizes(order@) } else { component_counts@ };
    aggregate.push(0);
    let mut running_sum: usize = 0;
    let mut i: usize = 0;
    proof {
        assert(ordered.subrange(0, 0) == Seq::<usize>::empty());
    }
    while i < num_components
        invariant
            i <= num_components,
            order@.len() == num_components,
            component_counts@.len() == num_components,
            ordered.len() == num_components,
            ordered == if sort { sizes(order@) } else { component_counts@ },
            sum(ordered) == total,
            aggregate@.len() == i + 1,
            running_sum == sum(ordered.subrange(0, i as int)),
            forall|a: int| 0 <= a <= i ==> #[trigger] aggregate@[a] == sum(ordered.subrange(0, a)),
        decreases num_components - i,
    {
        let elem = if sort { order[i].1 } else { component_counts[i] };
        proof {
            let pre = ordered.subrange(0, i as int);
            let post = ordered.subrange(0, i + 1);
            assert(post.drop_last() == pre);
            assert(elem == ordered[i as int]);
            assert(post.last() == elem);
            assert(sum(post) == sum(pre) + elem);
            lemma_sum_prefix_bound(ordered, i + 1);
        }
        running_sum = running_sum + elem;
        aggregate.push(running_sum);
        i = i + 1;
    }
    proof {
        assert(ordered.subrange(0, num_components as int) == ordered);
        assert(is_running_total(aggregate@, ordered));
        assert forall|a: int, b: int| 0 <= a <= b < aggregate@.len() implies #[trigger] aggregate@[a]
            <= #[trigger] aggregate@[b] by {
            lemma_sum_prefix_monotone(ordered, a, b);
        }
    }
    aggregate
}

proof fn lemma_sum_prefix_monotone(s: Seq<usize>, a: int, b: int)
    requires
        0 <= a <= b <= s.len(),
    ensures
        sum(s.subrange(0, a)) <= sum(s.subrange(0, b)),
    decreases b - a,
{
    if a < b {
        lemma_sum_prefix_monotone(s, a, b - 1);
        assert(s.subrange(0, b).drop_last() == s.subrange(0, b - 1));
    }
}

} // verus!
