//! Single-source shortest hop distances over unit-weight arcs.

use vstd::prelude::*;
use crate::graph::{Graph, GraphError, GraphModel, model_wf};

verus! {

/// There is a directed walk of exactly `k` arcs from `s` to `v`.
pub open spec fn has_path(adj: Seq<Seq<usize>>, s: int, v: int, k: nat) -> bool
    decreases k,
{
    if k == 0 {
        v == s
    } else {
        exists|u: int|
            0 <= u < adj.len() && has_path(adj, s, u, (k - 1) as nat) && adj[u].contains(
                v as usize,
            )
    }
}

/// `v` can be reached from `s` along directed arcs.
pub open spec fn reachable(adj: Seq<Seq<usize>>, s: int, v: int) -> bool {
    exists|k: nat| has_path(adj, s, v, k)
}

/// The hop distance from `s` to `v`: the least number of arcs on any
/// directed walk between them.  Meaningful only when `v` is reachable.
pub open spec fn dist_of(adj: Seq<Seq<usize>>, s: int, v: int) -> nat {
    choose|k: nat|
        has_path(adj, s, v, k) && forall|j: nat| j < k ==> !has_path(adj, s, v, j)
}

/// A walk of `k` arcs guarantees a least-length walk: `dist_of` is attained,
/// is minimal, and is at most `k`.
pub proof fn lemma_least_path(adj: Seq<Seq<usize>>, s: int, v: int, k: nat)
    requires
        has_path(adj, s, v, k),
    ensures
        reachable(adj, s, v),
        has_path(adj, s, v, dist_of(adj, s, v)),
        forall|j: nat| j < dist_of(adj, s, v) ==> !has_path(adj, s, v, j),
        dist_of(adj, s, v) <= k,
    decreases k,
{
    if exists|j: nat| j < k && has_path(adj, s, v, j) {
        let j = choose|j: nat| j < k && has_path(adj, s, v, j);
        lemma_least_path(adj, s, v, j);
    } else {
        assert(has_path(adj, s, v, k) && forall|j: nat| j < k ==> !has_path(adj, s, v, j));
        let d = dist_of(adj, s, v);
        assert(has_path(adj, s, v, d) && forall|j: nat| j < d ==> !has_path(adj, s, v, j));
        if d > k {
            assert(!has_path(adj, s, v, k));
            assert(false);
        }
    }
}

/// A sequence of pairwise distinct indices below `n` has at most `n` entries.
proof fn lemma_distinct_bounded_len(q: Seq<usize>, n: nat)
    requires
        q.no_duplicates(),
        forall|i: int| 0 <= i < q.len() ==> (#[trigger] q[i]) < n,
    ensures
        q.len() <= n,
{
    let qi = Seq::new(q.len(), |i: int| q[i] as int);
    assert(qi.no_duplicates());
    qi.unique_seq_to_set();
    vstd::set_lib::lemma_int_range(0, n as int);
    assert forall|x: int| qi.to_set().contains(x) implies vstd::set_lib::set_int_range(
        0,
        n as int,
    ).contains(x) by {
        assert(qi.contains(x));
        let i = choose|i: int| 0 <= i < qi.len() && qi[i] == x;
        assert(q[i] < n);
    }
    vstd::set_lib::lemma_len_subset(qi.to_set(), vstd::set_lib::set_int_range(0, n as int));
}

/// Every target of `u`'s adjacency row has a recorded distance, at most one
/// more than `u`'s own.
pub open spec fn row_relaxed(adj: Seq<Seq<usize>>, dist: Seq<Option<usize>>, u: int) -> bool {
    forall|idx: int|
        0 <= idx < adj[u].len() ==> {
            let t = #[trigger] adj[u][idx] as int;
            &&& dist[t] is Some
            &&& dist[t]->0 <= dist[u]->0 + 1
        }
}

/// The recorded distance of the queue entry at position `i`.
pub open spec fn queue_dist(dist: Seq<Option<usize>>, q: Seq<usize>, i: int) -> int {
    dist[q[i] as int]->0 as int
}

/// A distance map stable under relaxation and anchored at `s` bounds the
/// hop distance from above: any walk of `k` arcs to `v` forces an entry of
/// at most `k` at `v`.
proof fn lemma_stable_bounds(
    adj: Seq<Seq<usize>>,
    dist: Seq<Option<usize>>,
    s: int,
    v: int,
    k: nat,
)
    requires
        dist.len() == adj.len(),
        adj.len() <= usize::MAX,
        0 <= s < adj.len(),
        dist[s] == Some(0usize),
        forall|u: int| 0 <= u < adj.len() && (#[trigger] dist[u]) is Some ==> row_relaxed(adj, dist, u),
        has_path(adj, s, v, k),
        0 <= v < adj.len(),
    ensures
        dist[v] is Some,
        dist[v]->0 <= k,
    decreases k,
{
    if k == 0 {
        assert(v == s);
    } else {
        let u = choose|u: int|
            0 <= u < adj.len() && has_path(adj, s, u, (k - 1) as nat) && adj[u].contains(
                v as usize,
            );
        lemma_stable_bounds(adj, dist, s, u, (k - 1) as nat);
        assert(row_relaxed(adj, dist, u));
        let idx = choose|idx: int| 0 <= idx < adj[u].len() && adj[u][idx] == v as usize;
        assert(adj[u][idx] as int == v);
        assert(dist[v] is Some && dist[v]->0 <= dist[u]->0 + 1);
    }
}

/// Breadth-first traversal from node `s`: for every node, the least hop
/// count from `s`, and no entry at all for the unreachable ones.
pub fn distances_from(g: &Graph, s: usize) -> (dist: Vec<Option<usize>>)
    requires
        g.wf(),
        s < g.model().0.len(),
    ensures
        dist@.len() == g.model().1.len(),
        forall|v: int|
            0 <= v < dist@.len() ==> ((#[trigger] dist@[v]) is Some <==> reachable(
                g.model().1,
                s as int,
                v,
            )),
        forall|v: int|
            0 <= v < dist@.len() && dist@[v] is Some ==> (#[trigger] dist@[v])->0 == dist_of(
                g.model().1,
                s as int,
                v,
            ),
{
    let ghost m = g.model();
    let n = g.adj.len();
    let mut dist: Vec<Option<usize>> = Vec::new();
    for v in 0..n
        invariant
            dist@.len() == v,
            forall|w: int| 0 <= w < v ==> (#[trigger] dist@[w]) is None,
    {
        dist.push(None);
    }
    dist.set(s, Some(0usize));
    let mut queue: Vec<usize> = Vec::new();
    queue.push(s);
    let mut head: usize = 0;
    proof {
        assert(has_path(m.1, s as int, s as int, 0));
        assert(queue@[0] == s);
        assert forall|v: int|
            0 <= v < n && (#[trigger] dist@[v]) is Some implies queue@.contains(v as usize) by {
            assert(v == s as int);
            assert(queue@[0] == s);
        }
    }
    while head < queue.len()
        invariant
            m == g.model(),
            model_wf(m),
            n == m.1.len(),
            g.adj@.len() == n,
            s < n,
            dist@.len() == n,
            dist@[s as int] == Some(0usize),
            head <= queue@.len(),
            queue@.len() <= n,
            queue@.no_duplicates(),
            forall|i: int|
                0 <= i < queue@.len() ==> (#[trigger] queue@[i]) < n && dist@[queue@[i] as int]
                    is Some,
            forall|v: int|
                0 <= v < n && (#[trigger] dist@[v]) is Some ==> queue@.contains(v as usize),
            forall|v: int|
                0 <= v < n && (#[trigger] dist@[v]) is Some ==> (dist@[v]->0 as int)
                    < queue@.len(),
            forall|v: int|
                0 <= v < n && (#[trigger] dist@[v]) is Some ==> has_path(
                    m.1,
                    s as int,
                    v,
                    dist@[v]->0 as nat,
                ),
            forall|i: int, j: int|
                0 <= i <= j < queue@.len() ==> #[trigger] queue_dist(dist@, queue@, i)
                    <= #[trigger] queue_dist(dist@, queue@, j),
            forall|i: int|
                head <= i < queue@.len() ==> #[trigger] queue_dist(dist@, queue@, i)
                    <= queue_dist(dist@, queue@, head as int) + 1,
            forall|p: int|
                0 <= p < head ==> row_relaxed(m.1, dist@, #[trigger] queue@[p] as int),
        decreases n - head,
    {
        let u = queue[head];
        let du = match dist[u] {
            Some(d) => d,
            None => 0,
        };
        head = head + 1;
        let ghost uq: int = head - 1;
        let deg = g.adj[u].len();
        for idx in 0..deg
            invariant
                m == g.model(),
                model_wf(m),
                n == m.1.len(),
                g.adj@.len() == n,
                s < n,
                u < n,
                deg == m.1[u as int].len(),
                dist@.len() == n,
                dist@[s as int] == Some(0usize),
                1 <= head <= queue@.len(),
                queue@.len() <= n,
                uq == head - 1,
                queue@[uq] == u,
                dist@[u as int] == Some(du),
                queue@.no_duplicates(),
                forall|i: int|
                    0 <= i < queue@.len() ==> (#[trigger] queue@[i]) < n && dist@[queue@[i] as int]
                        is Some,
                forall|v: int|
                    0 <= v < n && (#[trigger] dist@[v]) is Some ==> queue@.contains(v as usize),
                forall|v: int|
                    0 <= v < n && (#[trigger] dist@[v]) is Some ==> (dist@[v]->0 as int)
                        < queue@.len(),
                forall|v: int|
                    0 <= v < n && (#[trigger] dist@[v]) is Some ==> has_path(
                        m.1,
                        s as int,
                        v,
                        dist@[v]->0 as nat,
                    ),
                forall|i: int, j: int|
                    0 <= i <= j < queue@.len() ==> #[trigger] queue_dist(dist@, queue@, i)
                        <= #[trigger] queue_dist(dist@, queue@, j),
                forall|i: int|
                    uq <= i < queue@.len() ==> #[trigger] queue_dist(dist@, queue@, i) <= du + 1,
                forall|p: int|
                    0 <= p < uq ==> row_relaxed(m.1, dist@, #[trigger] queue@[p] as int),
                forall|q2: int|
                    0 <= q2 < idx ==> {
                        let t = #[trigger] m.1[u as int][q2] as int;
                        &&& dist@[t] is Some
                        &&& dist@[t]->0 <= du + 1
                    },
        {
            let t = g.adj[u][idx];
            proof {
                assert(t == m.1[u as int][idx as int]);
                assert(t < n);
            }
            let mut is_new = false;
            match dist[t] {
                Some(_) => {
                    proof {
                        assert(queue@.contains(t as usize));
                        let i2 = queue@.index_of(t as usize);
                        assert(0 <= i2 < queue@.len() && queue@[i2] == t);
                        if i2 <= uq {
                            assert(queue_dist(dist@, queue@, i2) <= queue_dist(
                                dist@,
                                queue@,
                                uq,
                            ));
                        } else {
                            assert(queue_dist(dist@, queue@, i2) <= du + 1);
                        }
                        assert(dist@[t as int]->0 <= du + 1);
                    }
                },
                None => {
                    is_new = true;
                },
            }
            if is_new {
                let ghost dist_old = dist@;
                let ghost queue_old = queue@;
                let nd = du + 1;
                dist.set(t, Some(nd));
                queue.push(t);
                proof {
                    assert(queue@ == queue_old.push(t));
                    assert(dist@ == dist_old.update(t as int, Some(nd)));
                    assert(queue@.no_duplicates()) by {
                        assert(forall|i: int|
                            0 <= i < queue_old.len() ==> dist_old[#[trigger] queue_old[i] as int]
                                is Some);
                        assert(forall|i: int|
                            0 <= i < queue_old.len() ==> #[trigger] queue_old[i] != t);
                    }
                    lemma_distinct_bounded_len(queue@, n as nat);
                    assert(has_path(m.1, s as int, t as int, (nd as nat))) by {
                        assert(has_path(m.1, s as int, u as int, du as nat));
                        assert(m.1[u as int].contains(t as usize)) by {
                            assert(m.1[u as int][idx as int] == t);
                        }
                    }
                    assert forall|v: int|
                        0 <= v < n && (#[trigger] dist@[v]) is Some implies queue@.contains(
                        v as usize,
                    ) by {
                        if v == t as int {
                            assert(queue@[queue_old.len() as int] == t);
                        } else {
                            assert(dist_old[v] is Some);
                            assert(queue_old.contains(v as usize));
                            let i = choose|i: int|
                                0 <= i < queue_old.len() && queue_old[i] == (v as usize);
                            assert(queue@[i] == (v as usize));
                        }
                    }
                    assert forall|i: int|
                        uq <= i < queue@.len() implies #[trigger] queue_dist(dist@, queue@, i)
                        <= du + 1 by {
                        if i < queue_old.len() {
                            assert(queue@[i] == queue_old[i]);
                            assert(queue_old[i] != t);
                            assert(queue_dist(dist_old, queue_old, i) <= du + 1);
                        } else {
                            assert(queue@[i] == t);
                        }
                    }
                    assert forall|v: int|
                        0 <= v < n && (#[trigger] dist@[v]) is Some implies (dist@[v]->0 as int)
                        < queue@.len() && has_path(m.1, s as int, v, dist@[v]->0 as nat) by {
                        if v != t as int {
                            assert(dist@[v] == dist_old[v]);
                        }
                    }
                    assert forall|i: int, j: int|
                        0 <= i <= j < queue@.len() implies #[trigger] queue_dist(dist@, queue@, i)
                        <= #[trigger] queue_dist(dist@, queue@, j) by {
                        if j < queue_old.len() {
                            assert(queue@[i] == queue_old[i] && queue@[j] == queue_old[j]);
                            assert(queue_old[i] != t && queue_old[j] != t);
                            assert(queue_dist(dist_old, queue_old, i) <= queue_dist(
                                dist_old,
                                queue_old,
                                j,
                            ));
                        } else {
                            assert(queue@[j] == t);
                            if i < queue_old.len() {
                                assert(queue@[i] == queue_old[i]);
                                assert(queue_old[i] != t);
                                if i <= uq {
                                    assert(queue_dist(dist_old, queue_old, i) <= queue_dist(
                                        dist_old,
                                        queue_old,
                                        uq,
                                    ));
                                } else {
                                    assert(queue_dist(dist_old, queue_old, i) <= du + 1);
                                }
                            }
                        }
                    }
                    assert forall|p: int|
                        0 <= p < uq implies row_relaxed(m.1, dist@, #[trigger] queue@[p] as int) by {
                        let pu = queue@[p] as int;
                        assert(queue@[p] == queue_old[p]);
                        assert(row_relaxed(m.1, dist_old, pu));
                        assert forall|q3: int| 0 <= q3 < m.1[pu].len() implies {
                            let t3 = #[trigger] m.1[pu][q3] as int;
                            &&& dist@[t3] is Some
                            &&& dist@[t3]->0 <= dist@[pu]->0 + 1
                        } by {
                            let t3 = m.1[pu][q3] as int;
                            assert(dist_old[t3] is Some);
                            assert(t3 != t as int);
                            assert(pu != t as int);
                        }
                    }
                }
            }
        }
        proof {
            assert(row_relaxed(m.1, dist@, u as int)) by {
                assert(forall|q2: int|
                    0 <= q2 < m.1[u as int].len() ==> dist@[#[trigger] m.1[u as int][q2] as int]
                        is Some);
            }
            assert forall|p: int|
                0 <= p < head implies row_relaxed(m.1, dist@, #[trigger] queue@[p] as int) by {
                if p < uq {
                } else {
                    assert(queue@[p] == u);
                }
            }
            if head < queue@.len() {
                assert(queue_dist(dist@, queue@, uq) <= queue_dist(
                    dist@,
                    queue@,
                    head as int,
                ));
                assert forall|i: int|
                    head <= i < queue@.len() implies #[trigger] queue_dist(dist@, queue@, i)
                    <= queue_dist(dist@, queue@, head as int) + 1 by {
                    assert(queue_dist(dist@, queue@, i) <= du + 1);
                    assert(du <= queue_dist(dist@, queue@, head as int));
                }
            }
        }
    }
    proof {
        assert forall|v: int|
            0 <= v < n && (#[trigger] dist@[v]) is Some implies row_relaxed(m.1, dist@, v) by {
            assert(queue@.contains(v as usize));
            let i = queue@.index_of(v as usize);
            assert(0 <= i < queue@.len() && queue@[i] == v as usize);
            assert(row_relaxed(m.1, dist@, queue@[i] as int));
        }
        assert forall|v: int| 0 <= v < n implies ((#[trigger] dist@[v]) is Some <==> reachable(
            m.1,
            s as int,
            v,
        )) && (dist@[v] is Some ==> dist@[v]->0 == dist_of(m.1, s as int, v)) by {
            if dist@[v] is Some {
                let d = dist@[v]->0;
                assert(has_path(m.1, s as int, v, d as nat));
                lemma_least_path(m.1, s as int, v, d as nat);
                lemma_stable_bounds(m.1, dist@, s as int, v, dist_of(m.1, s as int, v));
                assert(dist_of(m.1, s as int, v) <= d);
                assert(d <= dist_of(m.1, s as int, v));
            } else {
                if reachable(m.1, s as int, v) {
                    let k = choose|k: nat| has_path(m.1, s as int, v, k);
                    lemma_stable_bounds(m.1, dist@, s as int, v, k);
                    assert(false);
                }
            }
        }
    }
    dist
}

/// The distance table from start node `s`, in node order: one `(label,
/// hops)` pair for every reachable node, and none for the others.
pub open spec fn dist_pairs_upto(m: GraphModel, s: int, i: int) -> Seq<(Seq<char>, usize)>
    decreases i,
{
    if i <= 0 {
        Seq::empty()
    } else if reachable(m.1, s, i - 1) {
        dist_pairs_upto(m, s, i - 1).push((m.0[i - 1], dist_of(m.1, s, i - 1) as usize))
    } else {
        dist_pairs_upto(m, s, i - 1)
    }
}

/// The whole distance table from start node `s`.
pub open spec fn dist_pairs(m: GraphModel, s: int) -> Seq<(Seq<char>, usize)> {
    dist_pairs_upto(m, s, m.0.len() as int)
}

/// The mathematical value of a vector of `(label, hops)` pairs.
pub open spec fn label_dist_view(p: Seq<(String, usize)>) -> Seq<(Seq<char>, usize)> {
    Seq::new(p.len(), |i: int| (p[i].0@, p[i].1))
}

/// Law: the start node always appears in its own distance map, at hop
/// distance exactly zero.
pub proof fn lemma_start_distance(adj: Seq<Seq<usize>>, s: int)
    ensures
        reachable(adj, s, s),
        dist_of(adj, s, s) == 0,
{
    assert(has_path(adj, s, s, 0));
    lemma_least_path(adj, s, s, 0);
}

impl Graph {
    /// The shortest hop distances from `start` to every node it reaches,
    /// as `(label, hops)` pairs in node order; unreachable nodes are absent.
    /// Fails with `UnknownNode` exactly when `start` is not in the node set.
    pub fn shortest_paths(&self, start: String) -> (r: Result<
        Vec<(String, usize)>,
        GraphError,
    >)
        requires
            self.wf(),
        ensures
            match r {
                Ok(pairs) => self.model().0.contains(start@) && label_dist_view(pairs@)
                    == dist_pairs(self.model(), self.model().0.index_of(start@)),
                Err(e) => e == GraphError::UnknownNode && !self.model().0.contains(start@),
            },
    {
        let ghost m = self.model();
        match crate::graph::find_node(&self.labels, &start) {
            None => {
                proof {
                    assert(forall|k: int| 0 <= k < m.0.len() ==> m.0[k] != start@);
                }
                Err(GraphError::UnknownNode)
            },
            Some(si) => {
                proof {
                    assert(m.0[si as int] == start@);
                    assert(m.0.contains(start@));
                    let kk = m.0.index_of(start@);
                    assert(0 <= kk < m.0.len() && m.0[kk] == start@);
                    if kk != si as int {
                        assert(m.0[kk] != m.0[si as int]);
                        assert(false);
                    }
                }
                let dist = distances_from(self, si);
                let n = self.labels.len();
                let mut pairs: Vec<(String, usize)> = Vec::new();
                for v in 0..n
                    invariant
                        m == self.model(),
                        model_wf(m),
                        n == m.0.len(),
                        si < n,
                        self.labels@.len() == n,
                        dist@.len() == n,
                        forall|w: int|
                            0 <= w < n ==> ((#[trigger] dist@[w]) is Some <==> reachable(
                                m.1,
                                si as int,
                                w,
                            )),
                        forall|w: int|
                            0 <= w < n && dist@[w] is Some ==> (#[trigger] dist@[w])->0
                                == dist_of(m.1, si as int, w),
                        label_dist_view(pairs@) == dist_pairs_upto(m, si as int, v as int),
                {
                    let ghost old_pairs = pairs@;
                    match dist[v] {
                        Some(d) => {
                            pairs.push((self.labels[v].clone(), d));
                            proof {
                                assert(label_dist_view(pairs@) =~= label_dist_view(
                                    old_pairs,
                                ).push((m.0[v as int], d)));
                            }
                        },
                        None => {},
                    }
                }
                proof {
                    assert(label_dist_view(pairs@) == dist_pairs(m, m.0.index_of(start@)));
                }
                Ok(pairs)
            },
        }
    }
}

} // verus!
