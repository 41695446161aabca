//! The directed graph: construction from an edge stream, reversal, and
//! neighbor lookup.

use vstd::prelude::*;

verus! {

/// Failure kinds surfaced by the graph engine.
#[derive(Clone, Copy, PartialEq, Eq, Structural, Debug)]
pub enum GraphError {
    /// A label was looked up that is not a member of the graph's node set.
    UnknownNode,
    /// A degree score was normalized over a graph with at most one node.
    DivisionUndefined,
}

/// A directed graph over string-labelled nodes.
///
/// Node `i` carries the label `labels[i]`; `adj[i]` lists the targets of the
/// outgoing arcs of node `i`, in insertion order and with multiplicity
/// (parallel arcs and self-loops are kept, never deduplicated).  Labels are
/// pairwise distinct; arcs refer to nodes by index.
pub struct Graph {
    pub labels: Vec<String>,
    pub adj: Vec<Vec<usize>>,
}

/// The label sequence and the adjacency sequence of a graph, as one
/// mathematical value.
pub type GraphModel = (Seq<Seq<char>>, Seq<Seq<usize>>);

/// Well-formedness: one adjacency row per node, every arc target a valid
/// node index, and pairwise distinct labels.
pub open spec fn model_wf(m: GraphModel) -> bool {
    &&& m.1.len() == m.0.len()
    &&& m.0.len() <= usize::MAX
    &&& forall|u: int, j: int|
        0 <= u < m.1.len() && 0 <= j < m.1[u].len() ==> (#[trigger] m.1[u][j]) < m.0.len()
    &&& forall|i: int, j: int| 0 <= i < j < m.0.len() ==> m.0[i] != m.0[j]
}

/// How many times `x` occurs in `s`: the multiplicity of the arc target `x`
/// in an adjacency row.
pub open spec fn count_occ(s: Seq<usize>, x: int) -> nat
    decreases s.len(),
{
    if s.len() == 0 {
        0
    } else {
        count_occ(s.drop_last(), x) + if s.last() as int == x { 1nat } else { 0nat }
    }
}

/// Occurrences of `v` as a target in the first `n` adjacency rows.
pub open spec fn in_degree_upto(adj: Seq<Seq<usize>>, v: int, n: int) -> nat
    decreases n,
{
    if n <= 0 {
        0
    } else {
        in_degree_upto(adj, v, n - 1) + count_occ(adj[n - 1], v)
    }
}

/// The in-degree of node `v`: occurrences of `v` as a target anywhere.
pub open spec fn in_degree(adj: Seq<Seq<usize>>, v: int) -> nat {
    in_degree_upto(adj, v, adj.len() as int)
}

/// `r` is the reverse of `g`: same labels, and each node's multiset of arc
/// targets flipped (`u -> v` in `g` exactly as often as `v -> u` in `r`).
pub open spec fn is_reverse_model(g: GraphModel, r: GraphModel) -> bool {
    &&& model_wf(r)
    &&& r.0 == g.0
    &&& forall|v: int|
        0 <= v < g.0.len() ==> (#[trigger] r.1[v]).len() == in_degree(g.1, v)
    &&& forall|u: int, v: int|
        0 <= u < g.0.len() && 0 <= v < g.0.len() ==> #[trigger] count_occ(r.1[v], u)
            == count_occ(g.1[u], v)
}

/// Adding a node to the model: a no-op if the label is already present,
/// otherwise a fresh node with an empty adjacency row.
pub open spec fn add_node(m: GraphModel, l: Seq<char>) -> GraphModel {
    if m.0.contains(l) {
        m
    } else {
        (m.0.push(l), m.1.push(Seq::empty()))
    }
}

/// Appending one arc to the model: both endpoints are added as nodes first,
/// then the target's index is appended to the source's adjacency row.
pub open spec fn add_arc(m: GraphModel, src: Seq<char>, dst: Seq<char>) -> GraphModel {
    let m2 = add_node(add_node(m, src), dst);
    let i = m2.0.index_of(src);
    let j = m2.0.index_of(dst);
    (m2.0, m2.1.update(i, m2.1[i].push(j as usize)))
}

/// The graph built by folding `add_arc` over an edge stream, in order.
pub open spec fn built_graph(edges: Seq<(Seq<char>, Seq<char>)>) -> GraphModel
    decreases edges.len(),
{
    if edges.len() == 0 {
        (Seq::empty(), Seq::empty())
    } else {
        add_arc(built_graph(edges.drop_last()), edges.last().0, edges.last().1)
    }
}

/// The edge stream of label pairs, as sequences of characters.
pub open spec fn edge_views(s: Seq<(String, String)>) -> Seq<(Seq<char>, Seq<char>)> {
    Seq::new(s.len(), |i: int| (s[i].0@, s[i].1@))
}

/// Appending an element raises its own multiplicity by one and keeps every
/// other multiplicity.
pub proof fn lemma_count_push(s: Seq<usize>, x: usize, y: int)
    ensures
        count_occ(s.push(x), y) == count_occ(s, y) + if x as int == y {
            1nat
        } else {
            0nat
        },
{
    assert(s.push(x).drop_last() =~= s);
    assert(s.push(x).last() == x);
}

/// The multiplicity of `w -> v` that the reversal loop has placed in the
/// reversed row of `v` after processing all rows before `u` and the first
/// `j` arcs of row `u`.
pub open spec fn rev_partial_count(adj: Seq<Seq<usize>>, v: int, w: int, u: int, j: int) -> nat {
    if w < u {
        count_occ(adj[w], v)
    } else if w == u {
        count_occ(adj[u].take(j), v)
    } else {
        0
    }
}

/// Law: reversing twice restores the graph up to arc order — the labels and
/// every node's multiset of arc targets are those of the original.
pub proof fn lemma_reverse_reverse(g: GraphModel, r: GraphModel, rr: GraphModel)
    requires
        model_wf(g),
        is_reverse_model(g, r),
        is_reverse_model(r, rr),
    ensures
        rr.0 == g.0,
        forall|u: int, v: int|
            0 <= u < g.0.len() && 0 <= v < g.0.len() ==> #[trigger] count_occ(rr.1[u], v)
                == count_occ(g.1[u], v),
{
    assert forall|u: int, v: int|
        0 <= u < g.0.len() && 0 <= v < g.0.len() implies #[trigger] count_occ(rr.1[u], v)
        == count_occ(g.1[u], v) by {
        assert(count_occ(rr.1[u], v) == count_occ(r.1[v], u));
        assert(count_occ(r.1[v], u) == count_occ(g.1[u], v));
    }
}

/// The mathematical value of a label vector and an adjacency vector.
pub open spec fn vecs_model(labels: Vec<String>, adj: Vec<Vec<usize>>) -> GraphModel {
    (
        Seq::new(labels@.len(), |i: int| labels@[i]@),
        Seq::new(adj@.len(), |i: int| adj@[i]@),
    )
}

/// The index of the first entry of `labels` with view `l`, if any, together
/// with the fact that no earlier entry matches.
pub(crate) fn find_node(labels: &Vec<String>, l: &String) -> (r: Option<usize>)
    ensures
        match r {
            Some(i) => i < labels@.len() && labels@[i as int]@ == l@ && forall|k: int|
                0 <= k < i ==> labels@[k]@ != l@,
            None => forall|k: int| 0 <= k < labels@.len() ==> labels@[k]@ != l@,
        },
{
    let n = labels.len();
    for i in 0..n
        invariant
            n == labels@.len(),
            forall|k: int| 0 <= k < i ==> labels@[k]@ != l@,
    {
        if labels[i] == *l {
            return Some(i);
        }
    }
    None
}

/// The index of label `l` in the graph under construction, inserting a fresh
/// node for it when it is not present yet.
fn find_or_add(labels: &mut Vec<String>, adj: &mut Vec<Vec<usize>>, l: &String) -> (i: usize)
    requires
        model_wf(vecs_model(*old(labels), *old(adj))),
    ensures
        model_wf(vecs_model(*final(labels), *final(adj))),
        vecs_model(*final(labels), *final(adj)) == add_node(
            vecs_model(*old(labels), *old(adj)),
            l@,
        ),
        i < final(labels)@.len(),
        final(labels)@[i as int]@ == l@,
        i as int == vecs_model(*final(labels), *final(adj)).0.index_of(l@),
{
    let ghost m0 = vecs_model(*labels, *adj);
    let r = find_node(labels, l);
    let i: usize = match r {
        Some(i) => {
            proof {
                assert(m0.0[i as int] == l@);
                assert(m0.0.contains(l@));
                assert(vecs_model(*labels, *adj) == add_node(m0, l@));
            }
            i
        },
        None => {
            let i = labels.len();
            labels.push(l.clone());
            adj.push(Vec::new());
            let grown_len: usize = labels.len();
            proof {
                assert(grown_len == labels@.len());
                assert(!m0.0.contains(l@)) by {
                    assert(forall|k: int|
                        0 <= k < m0.0.len() ==> m0.0[k] != l@);
                }
                let m1 = vecs_model(*labels, *adj);
                assert(m1.0 =~= m0.0.push(l@));
                assert(m1.1 =~= m0.1.push(Seq::empty()));
                assert(m1 == add_node(m0, l@));
                assert(m1.1.len() == m1.0.len());
                assert forall|u: int, j: int|
                    0 <= u < m1.1.len() && 0 <= j < m1.1[u].len() implies (m1.1[u][j])
                    < m1.0.len() by {
                    if u < m0.1.len() {
                        assert(m1.1[u] == m0.1[u]);
                        assert(m0.1[u][j] < m0.0.len());
                    } else {
                        assert(m1.1[u] == Seq::<usize>::empty());
                    }
                }
                assert forall|a: int, b: int|
                    0 <= a < b < m1.0.len() implies m1.0[a] != m1.0[b] by {
                    if b < m0.0.len() {
                        assert(m0.0[a] != m0.0[b]);
                    } else {
                        assert(m1.0[b] == l@);
                        assert(m1.0[a] == m0.0[a]);
                        assert(m0.0[a] != l@);
                    }
                }
                assert(model_wf(m1));
            }
            i
        },
    };
    proof {
        let m1 = vecs_model(*labels, *adj);
        assert(m1.0[i as int] == l@);
        assert(m1.0.contains(l@));
        let k = m1.0.index_of(l@);
        assert(0 <= k < m1.0.len() && m1.0[k] == l@);
        if k != i as int {
            assert(m1.0[k] != m1.0[i as int]);
            assert(false);
        }
    }
    i
}

/// A fresh label vector with the same views, entry by entry.
fn clone_labels(labels: &Vec<String>) -> (r: Vec<String>)
    ensures
        r@.len() == labels@.len(),
        forall|i: int| 0 <= i < labels@.len() ==> r@[i]@ == labels@[i]@,
{
    let n = labels.len();
    let mut out: Vec<String> = Vec::new();
    for i in 0..n
        invariant
            n == labels@.len(),
            out@.len() == i,
            forall|q: int| 0 <= q < i ==> out@[q]@ == labels@[q]@,
    {
        out.push(labels[i].clone());
    }
    out
}

impl Graph {
    /// The mathematical value of this graph.
    pub open spec fn model(&self) -> GraphModel {
        vecs_model(self.labels, self.adj)
    }

    /// Structural invariant, established by the constructors and preserved
    /// by every operation.
    pub open spec fn wf(&self) -> bool {
        model_wf(self.model())
    }

    /// An empty graph: no nodes, no arcs.
    pub fn new() -> (g: Graph)
        ensures
            g.model().0 =~= Seq::<Seq<char>>::empty(),
            g.model().1 =~= Seq::<Seq<usize>>::empty(),
            g.wf(),
    {
        Graph { labels: Vec::new(), adj: Vec::new() }
    }

    /// Populates the graph from a finite edge stream: every pair inserts
    /// both endpoints into the node set and appends one arc from source to
    /// target, in input order.  Duplicate pairs and self-loops are kept.
    /// Whatever the graph held before is discarded.
    pub fn init(&mut self, edges: &Vec<(String, String)>)
        ensures
            final(self).model() == built_graph(edge_views(edges@)),
            final(self).wf(),
    {
        let ghost ev = edge_views(edges@);
        let mut labels: Vec<String> = Vec::new();
        let mut adj: Vec<Vec<usize>> = Vec::new();
        proof {
            assert(vecs_model(labels, adj).0 =~= built_graph(ev.take(0)).0);
            assert(vecs_model(labels, adj).1 =~= built_graph(ev.take(0)).1);
        }
        let n_edges = edges.len();
        for k in 0..n_edges
            invariant
                n_edges == edges@.len(),
                ev == edge_views(edges@),
                model_wf(vecs_model(labels, adj)),
                vecs_model(labels, adj) == built_graph(edge_views(edges@).take(k as int)),
        {
            let ghost m_k = vecs_model(labels, adj);
            let si = find_or_add(&mut labels, &mut adj, &edges[k].0);
            let ghost m_s = vecs_model(labels, adj);
            let ti = find_or_add(&mut labels, &mut adj, &edges[k].1);
            let ghost m_t = vecs_model(labels, adj);
            proof {
                assert(ev.len() == edges@.len());
                assert(ev[k as int] == (edges@[k as int].0@, edges@[k as int].1@));
                assert(m_s == add_node(m_k, ev[k as int].0));
                assert(m_t == add_node(m_s, ev[k as int].1));
                assert(m_t.0[si as int] == ev[k as int].0);
                assert(m_t.0.contains(ev[k as int].0));
                let kk = m_t.0.index_of(ev[k as int].0);
                assert(0 <= kk < m_t.0.len() && m_t.0[kk] == ev[k as int].0);
                if kk != si as int {
                    assert(m_t.0[kk] != m_t.0[si as int]);
                    assert(false);
                }
                assert(ti as int == m_t.0.index_of(ev[k as int].1));
            }
            let row = &mut adj[si];
            row.push(ti);
            proof {
                let m_new = vecs_model(labels, adj);
                assert(m_new.0 == m_t.0);
                assert(m_new.1 =~= m_t.1.update(si as int, m_t.1[si as int].push(ti)));
                assert(m_new == add_arc(m_k, ev[k as int].0, ev[k as int].1));
                assert(ev.take(k + 1).drop_last() =~= ev.take(k as int));
                assert(ev.take(k + 1).last() == ev[k as int]);
                assert(m_new == built_graph(ev.take(k + 1)));
                assert(model_wf(m_new)) by {
                    assert(m_new.1.len() == m_new.0.len());
                    assert forall|u: int, j: int|
                        0 <= u < m_new.1.len() && 0 <= j < m_new.1[u].len() implies (m_new.1[u][j])
                        < m_new.0.len() by {
                        if u == si as int && j == m_new.1[u].len() - 1 {
                            assert(m_new.1[u][j] == ti);
                        } else {
                            assert(m_new.1[u][j] == m_t.1[u][j]);
                        }
                    }
                }
            }
        }
        proof {
            assert(edge_views(edges@).take(n_edges as int) =~= edge_views(edges@));
        }
        self.labels = labels;
        self.adj = adj;
    }

    /// A freshly built graph with the same nodes and every arc flipped:
    /// `u -> v` occurs in `self` exactly as often as `v -> u` occurs in the
    /// result.  The receiver is not touched.
    pub fn reverse(&self) -> (r: Graph)
        requires
            self.wf(),
        ensures
            r.wf(),
            is_reverse_model(self.model(), r.model()),
    {
        let ghost g = self.model();
        let n = self.labels.len();
        let mut radj: Vec<Vec<usize>> = Vec::new();
        for v in 0..n
            invariant
                radj@.len() == v,
                forall|w: int| 0 <= w < v ==> (#[trigger] radj@[w])@.len() == 0,
        {
            radj.push(Vec::new());
        }
        for u in 0..n
            invariant
                g == self.model(),
                model_wf(g),
                n == g.0.len(),
                self.adj@.len() == n,
                radj@.len() == n,
                forall|v: int|
                    0 <= v < n ==> (#[trigger] radj@[v])@.len() == in_degree_upto(
                        g.1,
                        v,
                        u as int,
                    ),
                forall|v: int, w: int|
                    0 <= v < n && 0 <= w < n ==> #[trigger] count_occ(radj@[v]@, w)
                        == rev_partial_count(g.1, v, w, u as int, 0),
                forall|v: int, q: int|
                    0 <= v < n && 0 <= q < radj@[v]@.len() ==> (#[trigger] radj@[v]@[q]) < n,
        {
            let m = self.adj[u].len();
            for j in 0..m
                invariant
                    g == self.model(),
                    model_wf(g),
                    n == g.0.len(),
                    self.adj@.len() == n,
                    u < n,
                    m == g.1[u as int].len(),
                    radj@.len() == n,
                    forall|v: int|
                        0 <= v < n ==> (#[trigger] radj@[v])@.len() == in_degree_upto(
                            g.1,
                            v,
                            u as int,
                        ) + count_occ(g.1[u as int].take(j as int), v),
                    forall|v: int, w: int|
                        0 <= v < n && 0 <= w < n ==> #[trigger] count_occ(radj@[v]@, w)
                            == rev_partial_count(g.1, v, w, u as int, j as int),
                    forall|v: int, q: int|
                        0 <= v < n && 0 <= q < radj@[v]@.len() ==> (#[trigger] radj@[v]@[q]) < n,
            {
                let t = self.adj[u][j];
                proof {
                    assert(t == g.1[u as int][j as int]);
                    assert(t < n);
                }
                let ghost radj_old = radj@;
                let row = &mut radj[t];
                row.push(u);
                proof {
                    assert(radj@[t as int]@ == radj_old[t as int]@.push(u));
                    assert(forall|v: int|
                        0 <= v < n && v != t as int ==> radj@[v] == radj_old[v]);
                    assert(g.1[u as int].take(j + 1) =~= g.1[u as int].take(j as int).push(t));
                    assert forall|v: int| 0 <= v < n implies (#[trigger] radj@[v])@.len()
                        == in_degree_upto(g.1, v, u as int) + count_occ(
                        g.1[u as int].take(j + 1),
                        v,
                    ) by {
                        lemma_count_push(g.1[u as int].take(j as int), t, v);
                        if v == t as int {
                            assert(radj@[v]@.len() == radj_old[v]@.len() + 1);
                        }
                    }
                    assert forall|v: int, w: int|
                        0 <= v < n && 0 <= w < n implies #[trigger] count_occ(radj@[v]@, w)
                        == rev_partial_count(g.1, v, w, u as int, j + 1) by {
                        lemma_count_push(g.1[u as int].take(j as int), t, v);
                        assert(count_occ(radj_old[v]@, w) == rev_partial_count(
                            g.1,
                            v,
                            w,
                            u as int,
                            j as int,
                        ));
                        if v == t as int {
                            lemma_count_push(radj_old[v]@, u, w);
                        }
                    }
                }
            }
            proof {
                assert(g.1[u as int].take(m as int) =~= g.1[u as int]);
                assert forall|v: int, w: int|
                    0 <= v < n && 0 <= w < n implies #[trigger] count_occ(radj@[v]@, w)
                    == rev_partial_count(g.1, v, w, u + 1, 0) by {
                    assert(count_occ(radj@[v]@, w) == rev_partial_count(
                        g.1,
                        v,
                        w,
                        u as int,
                        m as int,
                    ));
                }
            }
        }
        let rlabels = clone_labels(&self.labels);
        let rg = Graph { labels: rlabels, adj: radj };
        proof {
            assert(rg.model().0 =~= g.0);
            assert forall|v: int| 0 <= v < n implies (#[trigger] rg.model().1[v]).len()
                == in_degree(g.1, v) by {
                assert(rg.model().1[v] == radj@[v]@);
            }
            assert forall|u2: int, v2: int|
                0 <= u2 < n && 0 <= v2 < n implies #[trigger] count_occ(rg.model().1[v2], u2)
                == count_occ(g.1[u2], v2) by {
                assert(rg.model().1[v2] == radj@[v2]@);
                assert(count_occ(radj@[v2]@, u2) == rev_partial_count(
                    g.1,
                    v2,
                    u2,
                    n as int,
                    0,
                ));
            }
            assert(model_wf(rg.model()));
        }
        rg
    }

    /// The labels of the targets of `node`'s outgoing arcs, in adjacency
    /// order.  Fails with `UnknownNode` exactly when `node` is not a member
    /// of the node set.
    pub fn neighbors(&self, node: &String) -> (r: Result<Vec<String>, GraphError>)
        requires
            self.wf(),
        ensures
            match r {
                Ok(ns) => self.model().0.contains(node@) && {
                    let i = self.model().0.index_of(node@);
                    &&& ns@.len() == self.model().1[i].len()
                    &&& forall|k: int|
                        0 <= k < ns@.len() ==> (#[trigger] ns@[k])@ == self.model().0[self.model().1[i][k] as int]
                },
                Err(e) => e == GraphError::UnknownNode && !self.model().0.contains(node@),
            },
    {
        let ghost g = self.model();
        match find_node(&self.labels, node) {
            None => {
                proof {
                    assert(forall|k: int| 0 <= k < g.0.len() ==> g.0[k] != node@);
                }
                Err(GraphError::UnknownNode)
            },
            Some(i) => {
                proof {
                    assert(g.0[i as int] == node@);
                    assert(g.0.contains(node@));
                    let kk = g.0.index_of(node@);
                    assert(0 <= kk < g.0.len() && g.0[kk] == node@);
                    if kk != i as int {
                        assert(g.0[kk] != g.0[i as int]);
                        assert(false);
                    }
                }
                let m = self.adj[i].len();
                let mut out: Vec<String> = Vec::new();
                for k in 0..m
                    invariant
                        g == self.model(),
                        model_wf(g),
                        i < g.0.len(),
                        self.adj@.len() == g.0.len(),
                        m == g.1[i as int].len(),
                        out@.len() == k,
                        forall|q: int|
                            0 <= q < k ==> (#[trigger] out@[q])@ == g.0[g.1[i as int][q] as int],
                {
                    let t = self.adj[i][k];
                    proof {
                        assert(t == g.1[i as int][k as int]);
                        assert(t < g.0.len());
                    }
                    out.push(self.labels[t].clone());
                }
                Ok(out)
            },
        }
    }

    /// The number of nodes.
    pub fn size(&self) -> (n: usize)
        ensures
            n == self.model().0.len(),
    {
        self.labels.len()
    }
}


/// Adding a node makes exactly its label a member, besides what was there.
proof fn lemma_add_node_has(m: GraphModel, s: Seq<char>, l: Seq<char>)
    ensures
        add_node(m, s).0.contains(l) <==> (m.0.contains(l) || l == s),
{
    let r = add_node(m, s).0;
    if !m.0.contains(s) {
        if m.0.contains(l) {
            let i = choose|i: int| 0 <= i < m.0.len() && m.0[i] == l;
            assert(r[i] == l);
            assert(r.contains(l));
        }
        if l == s {
            assert(r[m.0.len() as int] == l);
            assert(r.contains(l));
        }
        if r.contains(l) {
            let i = choose|i: int| 0 <= i < r.len() && r[i] == l;
            if i < m.0.len() {
                assert(m.0[i] == l);
                assert(m.0.contains(l));
            }
        }
    }
}

/// Law: the node set of a built graph holds exactly the labels that occur
/// as an endpoint of some input pair.
pub proof fn lemma_built_graph_nodes(edges: Seq<(Seq<char>, Seq<char>)>, l: Seq<char>)
    ensures
        built_graph(edges).0.contains(l) <==> (exists|k: int|
            0 <= k < edges.len() && ((#[trigger] edges[k]).0 == l || edges[k].1 == l)),
    decreases edges.len(),
{
    if edges.len() > 0 {
        let prev = edges.drop_last();
        let e = edges.last();
        let m = built_graph(prev);
        lemma_built_graph_nodes(prev, l);
        lemma_add_node_has(m, e.0, l);
        lemma_add_node_has(add_node(m, e.0), e.1, l);
        assert(built_graph(edges).0 == add_node(add_node(m, e.0), e.1).0);
        if built_graph(edges).0.contains(l) {
            if m.0.contains(l) {
                let k = choose|k: int|
                    0 <= k < prev.len() && (prev[k].0 == l || prev[k].1 == l);
                assert(edges[k] == prev[k]);
            } else {
                assert(edges[edges.len() - 1] == e);
            }
        }
        if exists|k: int| 0 <= k < edges.len() && ((#[trigger] edges[k]).0 == l || edges[k].1
            == l) {
            let k = choose|k: int|
                0 <= k < edges.len() && ((#[trigger] edges[k]).0 == l || edges[k].1 == l);
            if k < edges.len() - 1 {
                assert(prev[k] == edges[k]);
                assert(m.0.contains(l));
            }
            assert(built_graph(edges).0.contains(l));
        }
    }
}

} // verus!
