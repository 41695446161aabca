//! Ranked centrality tables: out/in degree centrality and Wasserman-Faust
//! closeness centrality, with exact rational scores.

use rayon::iter::{IndexedParallelIterator, IntoParallelIterator, ParallelIterator};
use vstd::prelude::*;
use crate::graph::{Graph, GraphError, GraphModel, model_wf, in_degree};
use crate::ranking::{sort_desc, sorted_desc, ge_total, ge_trans, lemma_insert_desc_at};

verus! {

/// An exact degree-centrality score: `degree / (total - 1)` when the graph
/// has at least two nodes, and zero otherwise — the defined fallback for
/// the degenerate graph on which the quotient is undefined.
#[derive(Clone, Copy, PartialEq, Eq, Structural, Debug)]
pub struct DegreeScore {
    /// The raw degree of the node.
    pub degree: usize,
    /// The node count of the graph the score was taken in.
    pub total: usize,
}

impl DegreeScore {
    /// The score as an exact rational: a numerator and a positive
    /// denominator.
    pub open spec fn frac(self) -> (int, int) {
        if self.total <= 1 {
            (0int, 1int)
        } else {
            (self.degree as int, self.total - 1)
        }
    }
}

/// Law: a degree-centrality score is the raw degree divided by one less
/// than the node count, and exactly zero on a graph with at most one node.
pub proof fn lemma_degree_score_value(sc: DegreeScore)
    ensures
        sc.total > 1 ==> sc.frac() == (sc.degree as int, sc.total - 1),
        sc.total <= 1 ==> sc.frac() == (0int, 1int),
{
}

/// Normalizes one raw degree by `total - 1`.  The degenerate graph with at
/// most one node has no such quotient: it is refused, and callers fall
/// back to the zero score.
pub fn normalized_degree(degree: usize, total: usize) -> (r: Result<DegreeScore, GraphError>)
    ensures
        match r {
            Ok(sc) => total > 1 && sc == (DegreeScore { degree, total }),
            Err(e) => e == GraphError::DivisionUndefined && total <= 1,
        },
{
    if total > 1 {
        Ok(DegreeScore { degree, total })
    } else {
        Err(GraphError::DivisionUndefined)
    }
}

/// The mathematical value of a vector of `(label, count)` pairs.
pub open spec fn deg_pairs_view(p: Seq<(String, usize)>) -> Seq<(Seq<char>, usize)> {
    Seq::new(p.len(), |i: int| (p[i].0@, p[i].1))
}

/// Ranks `(label, count)` pairs by count, descending.
pub open spec fn deg_ge() -> spec_fn((Seq<char>, usize), (Seq<char>, usize)) -> bool {
    |a: (Seq<char>, usize), b: (Seq<char>, usize)| a.1 >= b.1
}

/// The unsorted out-degree table: every node's label with the length of
/// its adjacency row, in node order.
pub open spec fn out_degree_entries(m: GraphModel) -> Seq<(Seq<char>, usize)> {
    Seq::new(m.0.len(), |i: int| (m.0[i], m.1[i].len() as usize))
}

/// The unsorted in-degree table: every node's label with its in-degree.
pub open spec fn in_degree_entries(m: GraphModel) -> Seq<(Seq<char>, usize)> {
    Seq::new(m.0.len(), |i: int| (m.0[i], in_degree(m.1, i) as usize))
}

/// Insertion sort of `(label, count)` pairs, descending by count and
/// stable.
fn sort_degree_pairs(items: Vec<(String, usize)>) -> (r: Vec<(String, usize)>)
    ensures
        deg_pairs_view(r@) == sort_desc(deg_pairs_view(items@), deg_ge()),
{
    let ghost iv = deg_pairs_view(items@);
    let mut out: Vec<(String, usize)> = Vec::new();
    let n = items.len();
    for i in 0..n
        invariant
            iv == deg_pairs_view(items@),
            n == items@.len(),
            deg_pairs_view(out@) == sort_desc(iv.take(i as int), deg_ge()),
    {
        let x0 = items[i].0.clone();
        let x1 = items[i].1;
        let ghost out_old = deg_pairs_view(out@);
        let mut p: usize = 0;
        while p < out.len() && out[p].1 >= x1
            invariant
                out_old == deg_pairs_view(out@),
                p <= out@.len(),
                forall|k: int| 0 <= k < p ==> out_old[k].1 >= x1,
            decreases out@.len() - p,
        {
            p = p + 1;
        }
        out.insert(p, (x0, x1));
        proof {
            let xv = iv[i as int];
            assert(xv == (items@[i as int].0@, items@[i as int].1));
            lemma_insert_desc_at(out_old, xv, deg_ge(), p as int);
            assert(deg_pairs_view(out@) =~~= out_old.subrange(0, p as int).push(xv)
                + out_old.subrange(p as int, out_old.len() as int));
            assert(iv.take(i + 1).drop_last() =~~= iv.take(i as int));
            assert(iv.take(i + 1).last() == xv);
            assert(deg_pairs_view(out@) == sort_desc(iv.take(i + 1), deg_ge()));
        }
    }
    proof {
        assert(iv.take(n as int) =~~= iv);
    }
    out
}

impl Graph {
    /// Every node's label with its out-degree (duplicate arcs and
    /// self-loops counted), sorted descending by out-degree, stably.
    pub fn degree(&self) -> (r: Vec<(String, usize)>)
        requires
            self.wf(),
        ensures
            deg_pairs_view(r@) == sort_desc(out_degree_entries(self.model()), deg_ge()),
    {
        let ghost m = self.model();
        let n = self.labels.len();
        let mut entries: Vec<(String, usize)> = Vec::new();
        for v in 0..n
            invariant
                m == self.model(),
                n == m.0.len(),
                self.labels@.len() == n,
                self.adj@.len() == n,
                deg_pairs_view(entries@) == out_degree_entries(m).take(v as int),
        {
            proof {
                assert(deg_pairs_view(entries@).len() == entries@.len());
                assert(out_degree_entries(m).len() == m.0.len());
                assert(out_degree_entries(m).take(v as int).len() == v);
                assert(entries@.len() == v);
            }
            let d = self.adj[v].len();
            entries.push((self.labels[v].clone(), d));
            proof {
                assert(entries@.len() == v + 1);
                assert(entries@[v as int].0@ == m.0[v as int]);
                assert(entries@[v as int].1 == d);
                assert(out_degree_entries(m)[v as int] == (m.0[v as int], d));
                assert(deg_pairs_view(entries@) =~~= out_degree_entries(m).take(v + 1));
            }
        }
        proof {
            assert(out_degree_entries(m).take(n as int) =~~= out_degree_entries(m));
        }
        sort_degree_pairs(entries)
    }
}

/// The mathematical value of a vector of `(label, degree score)` pairs.
pub open spec fn deg_score_pairs_view(p: Seq<(String, DegreeScore)>) -> Seq<
    (Seq<char>, DegreeScore),
> {
    Seq::new(p.len(), |i: int| (p[i].0@, p[i].1))
}

/// The sorted count table with every count carrying the normalizing node
/// count.
pub open spec fn scored_pairs(s: Seq<(Seq<char>, usize)>, total: usize) -> Seq<
    (Seq<char>, DegreeScore),
> {
    Seq::new(s.len(), |i: int| (s[i].0, DegreeScore { degree: s[i].1, total }))
}

/// Attaches the normalizing node count to every entry of a sorted count
/// table.
fn score_table(deg: Vec<(String, usize)>, total: usize) -> (r: Vec<(String, DegreeScore)>)
    ensures
        deg_score_pairs_view(r@) == scored_pairs(deg_pairs_view(deg@), total),
{
    let mut out: Vec<(String, DegreeScore)> = Vec::new();
    let n = deg.len();
    for i in 0..n
        invariant
            n == deg@.len(),
            out@.len() == i,
            forall|k: int|
                0 <= k < i ==> (#[trigger] out@[k]).0@ == deg@[k].0@ && out@[k].1 == (DegreeScore {
                    degree: deg@[k].1,
                    total,
                }),
    {
        let d = deg[i].1;
        let sc = match normalized_degree(d, total) {
            Ok(sc) => sc,
            // Degenerate graph: the quotient is undefined and the score is
            // defined to be zero, which this representation denotes.
            Err(_) => DegreeScore { degree: d, total },
        };
        out.push((deg[i].0.clone(), sc));
    }
    proof {
        assert(deg_score_pairs_view(out@) =~~= scored_pairs(deg_pairs_view(deg@), total));
    }
    out
}

impl Graph {
    /// Out-degree centrality: the sorted out-degree table, every count
    /// divided by `N - 1`; on a graph with fewer than two nodes every
    /// score is zero rather than a failure.
    pub fn out_degree_centrality(&self) -> (r: Vec<(String, DegreeScore)>)
        requires
            self.wf(),
        ensures
            deg_score_pairs_view(r@) == scored_pairs(
                sort_desc(out_degree_entries(self.model()), deg_ge()),
                self.model().0.len() as usize,
            ),
    {
        let deg = self.degree();
        let total = self.labels.len();
        score_table(deg, total)
    }

    /// In-degree centrality: out-degree centrality of the reversed graph —
    /// the sorted in-degree table, every count divided by `N - 1`, and
    /// zero scores on a graph with fewer than two nodes.
    pub fn in_degree_centrality(&self) -> (r: Vec<(String, DegreeScore)>)
        requires
            self.wf(),
        ensures
            deg_score_pairs_view(r@) == scored_pairs(
                sort_desc(in_degree_entries(self.model()), deg_ge()),
                self.model().0.len() as usize,
            ),
    {
        let ghost m = self.model();
        let rev = self.reverse();
        proof {
            assert(out_degree_entries(rev.model()) =~~= in_degree_entries(m));
        }
        let deg = rev.degree();
        let total = self.labels.len();
        score_table(deg, total)
    }
}

/// An exact Wasserman-Faust closeness score.  With `n` nodes reached from
/// the measured node (itself included), `S` the sum of their hop
/// distances and `N` the node count, the score is
/// `((n - 1) / (N - 1)) * (n / S)`, and zero when nothing beyond the node
/// itself is reached.
#[derive(Clone, Copy, PartialEq, Eq, Structural, Debug)]
pub struct ClosenessScore {
    /// Nodes reachable from the measured node, itself included.
    pub reached: usize,
    /// The sum of hop distances to the reached nodes.
    pub dist_sum: u128,
    /// The node count of the graph the score was taken in.
    pub total: usize,
}

impl ClosenessScore {
    /// The score as an exact rational: a numerator and a positive
    /// denominator.  `(n - 1) * n / ((N - 1) * S)`, or zero when `S` is
    /// zero or the graph is degenerate.
    pub open spec fn frac(self) -> (int, int) {
        if self.dist_sum == 0 || self.total <= 1 {
            (0int, 1int)
        } else {
            (
                (self.reached - 1) * (self.reached as int),
                (self.total - 1) * (self.dist_sum as int),
            )
        }
    }
}

/// Ranks two closeness scores: exact comparison of the rational values.
pub open spec fn score_ge(a: ClosenessScore, b: ClosenessScore) -> bool {
    a.frac().0 * b.frac().1 >= b.frac().0 * a.frac().1
}

/// Ranks `(label, closeness score)` pairs by score, descending.
pub open spec fn close_ge() -> spec_fn(
    (Seq<char>, ClosenessScore),
    (Seq<char>, ClosenessScore),
) -> bool {
    |a: (Seq<char>, ClosenessScore), b: (Seq<char>, ClosenessScore)| score_ge(a.1, b.1)
}

/// A closeness fraction has a nonnegative numerator and a positive
/// denominator.
pub proof fn lemma_frac_signs(a: ClosenessScore)
    ensures
        a.frac().0 >= 0,
        a.frac().1 > 0,
{
    if !(a.dist_sum == 0 || a.total <= 1) {
        let r: int = a.reached as int;
        assert((r - 1) * r >= 0) by (nonlinear_arith)
            requires
                r >= 0;
        assert((a.total - 1) * (a.dist_sum as int) > 0) by (nonlinear_arith)
            requires
                a.total - 1 >= 1,
                (a.dist_sum as int) >= 1;
    }
}

/// The score order is total and transitive: any two scores compare, and
/// the comparison chains.
pub proof fn lemma_score_ge_order()
    ensures
        ge_total(close_ge()),
        ge_trans(close_ge()),
{
    assert forall|a: (Seq<char>, ClosenessScore), b: (Seq<char>, ClosenessScore)|
        #[trigger] close_ge()(a, b) || #[trigger] close_ge()(b, a) by {
        assert(score_ge(a.1, b.1) || score_ge(b.1, a.1));
    }
    assert forall|a: (Seq<char>, ClosenessScore), b: (Seq<char>, ClosenessScore), c: (
        Seq<char>,
        ClosenessScore,
    )|
        #[trigger] close_ge()(a, b) && #[trigger] close_ge()(b, c) implies close_ge()(a, c) by {
        lemma_frac_signs(a.1);
        lemma_frac_signs(b.1);
        lemma_frac_signs(c.1);
        let na = a.1.frac().0;
        let da = a.1.frac().1;
        let nb = b.1.frac().0;
        let db = b.1.frac().1;
        let nc = c.1.frac().0;
        let dc = c.1.frac().1;
        assert(na * dc >= nc * da) by (nonlinear_arith)
            requires
                na * db >= nb * da,
                nb * dc >= nc * db,
                da > 0,
                db > 0,
                dc > 0;
    }
}

/// Nodes among the first `i` that are reachable from `v`.
pub open spec fn reached_upto(adj: Seq<Seq<usize>>, v: int, i: int) -> nat
    decreases i,
{
    if i <= 0 {
        0
    } else {
        reached_upto(adj, v, i - 1) + if crate::paths::reachable(adj, v, i - 1) {
            1nat
        } else {
            0nat
        }
    }
}

/// The hop distances from `v` to the reachable nodes among the first `i`,
/// summed.
pub open spec fn dist_sum_upto(adj: Seq<Seq<usize>>, v: int, i: int) -> nat
    decreases i,
{
    if i <= 0 {
        0
    } else {
        dist_sum_upto(adj, v, i - 1) + if crate::paths::reachable(adj, v, i - 1) {
            crate::paths::dist_of(adj, v, i - 1)
        } else {
            0nat
        }
    }
}

/// The exact closeness score of node `v`.
pub open spec fn closeness_score_spec(m: GraphModel, v: int) -> ClosenessScore {
    ClosenessScore {
        reached: reached_upto(m.1, v, m.1.len() as int) as usize,
        dist_sum: dist_sum_upto(m.1, v, m.1.len() as int) as u128,
        total: m.0.len() as usize,
    }
}

/// The unsorted closeness table: every node's label with its score, in
/// node order.
pub open spec fn closeness_entries(m: GraphModel) -> Seq<(Seq<char>, ClosenessScore)> {
    Seq::new(m.0.len(), |i: int| (m.0[i], closeness_score_spec(m, i)))
}

/// The mathematical value of a vector of `(label, closeness score)` pairs.
pub open spec fn close_pairs_view(p: Seq<(String, ClosenessScore)>) -> Seq<
    (Seq<char>, ClosenessScore),
> {
    Seq::new(p.len(), |i: int| (p[i].0@, p[i].1))
}

/// Decides the exact rational order of two scores taken in the same
/// graph.
fn score_ge_exec(a: &ClosenessScore, b: &ClosenessScore) -> (r: bool)
    requires
        a.total == b.total,
    ensures
        r == score_ge(*a, *b),
{
    proof {
        lemma_frac_signs(*a);
        lemma_frac_signs(*b);
    }
    if b.dist_sum == 0 || b.total <= 1 {
        proof {
            assert(b.frac() == (0int, 1int));
            assert(score_ge(*a, *b)) by (nonlinear_arith)
                requires
                    a.frac().0 >= 0,
                    a.frac().1 > 0,
                    b.frac() == (0int, 1int),
                    score_ge(*a, *b) == (a.frac().0 * b.frac().1 >= b.frac().0 * a.frac().1);
        }
        true
    } else if a.dist_sum == 0 {
        // The right score is strictly positive, the left is zero.
        let r = b.reached <= 1;
        proof {
            assert(a.frac() == (0int, 1int));
            let rb: int = b.reached as int;
            assert(b.frac().0 == (rb - 1) * rb);
            if b.reached <= 1 {
                assert((rb - 1) * rb == 0) by (nonlinear_arith)
                    requires
                        0 <= rb <= 1;
            } else {
                assert((rb - 1) * rb >= 1) by (nonlinear_arith)
                    requires
                        rb >= 2;
            }
        }
        r
    } else {
        let ra = a.reached as u128;
        let rb = b.reached as u128;
        proof {
            assert((ra as int) < 0x10000000000000000 && (rb as int) < 0x10000000000000000);
            assert((ra as int - 1) * (ra as int) < 0x100000000000000000000000000000000int
                && (ra as int - 1) * (ra as int) >= 0) by (nonlinear_arith)
                requires
                    0 <= (ra as int) < 0x10000000000000000;
            assert((rb as int - 1) * (rb as int) < 0x100000000000000000000000000000000int
                && (rb as int - 1) * (rb as int) >= 0) by (nonlinear_arith)
                requires
                    0 <= (rb as int) < 0x10000000000000000;
        }
        let na: u128 = if ra == 0 {
            0
        } else {
            (ra - 1) * ra
        };
        let nb: u128 = if rb == 0 {
            0
        } else {
            (rb - 1) * rb
        };
        let r = crate::numeric::prod_ge(na, b.dist_sum, nb, a.dist_sum);
        proof {
            let t: int = a.total as int;
            if ra == 0 {
                assert((a.reached - 1) * (a.reached as int) == 0) by (nonlinear_arith)
                    requires
                        (a.reached as int) == 0;
            } else {
                assert(ra as int - 1 == a.reached - 1 && ra as int == a.reached as int);
                assert((ra as int - 1) * (ra as int) == (a.reached - 1) * (a.reached as int));
            }
            assert(na as int == (a.reached - 1) * (a.reached as int));
            if rb == 0 {
                assert((b.reached - 1) * (b.reached as int) == 0) by (nonlinear_arith)
                    requires
                        (b.reached as int) == 0;
            } else {
                assert(rb as int - 1 == b.reached - 1 && rb as int == b.reached as int);
                assert((rb as int - 1) * (rb as int) == (b.reached - 1) * (b.reached as int));
            }
            assert(nb as int == (b.reached - 1) * (b.reached as int));
            assert(a.frac().0 == na as int && a.frac().1 == (t - 1) * (a.dist_sum as int));
            assert(b.frac().0 == nb as int && b.frac().1 == (t - 1) * (b.dist_sum as int));
            assert(score_ge(*a, *b) <==> ((na as int) * (b.dist_sum as int) >= (nb as int) * (
            a.dist_sum as int))) by (nonlinear_arith)
                requires
                    a.frac().0 == na as int,
                    a.frac().1 == (t - 1) * (a.dist_sum as int),
                    b.frac().0 == nb as int,
                    b.frac().1 == (t - 1) * (b.dist_sum as int),
                    t - 1 >= 1,
                    (a.dist_sum as int) >= 0,
                    (b.dist_sum as int) >= 0,
                    score_ge(*a, *b) == (a.frac().0 * b.frac().1 >= b.frac().0 * a.frac().1);
        }
        r
    }
}

/// The closeness score of node `v`: one breadth-first traversal, then the
/// count of reached nodes and the summed distances.
pub fn closeness_score(g: &Graph, v: usize) -> (sc: ClosenessScore)
    requires
        g.wf(),
        v < g.model().0.len(),
    ensures
        sc == closeness_score_spec(g.model(), v as int),
{
    let ghost m = g.model();
    let dist = crate::paths::distances_from(g, v);
    let n = g.adj.len();
    let mut reached: usize = 0;
    let mut sum: u128 = 0;
    for i in 0..n
        invariant
            m == g.model(),
            n == m.1.len(),
            g.adj@.len() == n,
            dist@.len() == n,
            forall|w: int|
                0 <= w < n ==> ((#[trigger] dist@[w]) is Some <==> crate::paths::reachable(
                    m.1,
                    v as int,
                    w,
                )),
            forall|w: int|
                0 <= w < n && dist@[w] is Some ==> (#[trigger] dist@[w])->0
                    == crate::paths::dist_of(m.1, v as int, w),
            reached <= i,
            reached == reached_upto(m.1, v as int, i as int),
            sum == dist_sum_upto(m.1, v as int, i as int),
            (sum as int) <= (i as int) * 0xFFFFFFFFFFFFFFFF,
    {
        match dist[i] {
            Some(d) => {
                reached = reached + 1;
                proof {
                    assert((d as int) <= 0xFFFFFFFFFFFFFFFF);
                    assert((i as int) * 0xFFFFFFFFFFFFFFFF + 0xFFFFFFFFFFFFFFFF == (i as int
                        + 1) * 0xFFFFFFFFFFFFFFFF) by (nonlinear_arith);
                }
                sum = sum + d as u128;
            },
            None => {
                proof {
                    assert((i as int) * 0xFFFFFFFFFFFFFFFF <= (i as int + 1)
                        * 0xFFFFFFFFFFFFFFFF) by (nonlinear_arith)
                        requires
                            i >= 0;
                }
            },
        }
    }
    ClosenessScore { reached, dist_sum: sum, total: g.labels.len() }
}

/// One row of the closeness table: the node's label and its score.
pub fn closeness_entry(g: &Graph, v: usize) -> (e: (String, ClosenessScore))
    requires
        g.wf(),
        v < g.model().0.len(),
    ensures
        e.0@ == g.model().0[v as int],
        e.1 == closeness_score_spec(g.model(), v as int),
{
    let label = g.labels[v].clone();
    let sc = closeness_score(g, v);
    (label, sc)
}

/// Insertion sort of `(label, closeness score)` pairs, descending by
/// score and stable.  Every score must have been taken in the same graph.
fn sort_closeness_pairs(items: Vec<(String, ClosenessScore)>, total: usize) -> (r: Vec<
    (String, ClosenessScore),
>)
    requires
        forall|k: int| 0 <= k < items@.len() ==> (#[trigger] items@[k]).1.total == total,
    ensures
        close_pairs_view(r@) == sort_desc(close_pairs_view(items@), close_ge()),
{
    let ghost iv = close_pairs_view(items@);
    let mut out: Vec<(String, ClosenessScore)> = Vec::new();
    let n = items.len();
    for i in 0..n
        invariant
            iv == close_pairs_view(items@),
            n == items@.len(),
            forall|k: int| 0 <= k < n ==> (#[trigger] items@[k]).1.total == total,
            forall|k: int| 0 <= k < out@.len() ==> (#[trigger] out@[k]).1.total == total,
            close_pairs_view(out@) == sort_desc(iv.take(i as int), close_ge()),
    {
        let x0 = items[i].0.clone();
        let x1 = items[i].1;
        let ghost out_old = close_pairs_view(out@);
        let mut p: usize = 0;
        while p < out.len() && score_ge_exec(&out[p].1, &x1)
            invariant
                out_old == close_pairs_view(out@),
                p <= out@.len(),
                x1.total == total,
                forall|k: int| 0 <= k < out@.len() ==> (#[trigger] out@[k]).1.total == total,
                forall|k: int| 0 <= k < p ==> score_ge(out_old[k].1, x1),
            decreases out@.len() - p,
        {
            p = p + 1;
        }
        out.insert(p, (x0, x1));
        proof {
            let xv = iv[i as int];
            assert(xv == (items@[i as int].0@, items@[i as int].1));
            lemma_insert_desc_at(out_old, xv, close_ge(), p as int);
            assert(close_pairs_view(out@) =~~= out_old.subrange(0, p as int).push(xv)
                + out_old.subrange(p as int, out_old.len() as int));
            assert(iv.take(i + 1).drop_last() =~~= iv.take(i as int));
            assert(iv.take(i + 1).last() == xv);
            assert(close_pairs_view(out@) == sort_desc(iv.take(i + 1), close_ge()));
        }
    }
    proof {
        assert(iv.take(n as int) =~~= iv);
    }
    out
}

/// Relies on rayon: `into_par_iter().map(..).collect()` over a range is an
/// indexed parallel iterator, so the collected vector holds the results in
/// index order; the closure only calls the verified `closeness_entry`,
/// which reads the shared graph and mutates nothing.
#[verifier::external_body]
fn closeness_entries_par(g: &Graph) -> (r: Vec<(String, ClosenessScore)>)
    requires
        g.wf(),
    ensures
        close_pairs_view(r@) == closeness_entries(g.model()),
{
    (0..g.adj.len()).into_par_iter().map(|v| closeness_entry(g, v)).collect()
}

impl Graph {
    /// Wasserman-Faust closeness centrality: for every node one
    /// breadth-first traversal over the graph's own arcs, aggregated into
    /// `((n - 1) / (N - 1)) * (n / S)` and sorted descending by score.
    /// The per-node traversals are fanned out across a worker pool; the
    /// graph itself is only read.
    pub fn closeness_centrality(&self) -> (r: Vec<(String, ClosenessScore)>)
        requires
            self.wf(),
        ensures
            close_pairs_view(r@) == sort_desc(closeness_entries(self.model()), close_ge()),
    {
        let ghost m = self.model();
        let entries = closeness_entries_par(self);
        let total = self.labels.len();
        proof {
            assert(closeness_entries(m).len() == m.0.len());
            assert forall|k: int|
                0 <= k < entries@.len() implies (#[trigger] entries@[k]).1.total == total by {
                assert(close_pairs_view(entries@)[k] == closeness_entries(m)[k]);
                assert(entries@[k].1 == closeness_score_spec(m, k));
            }
        }
        let sorted = sort_closeness_pairs(entries, total);
        proof {
            assert(close_pairs_view(entries@) == closeness_entries(m));
        }
        sorted
    }
}

/// Law: a node that reaches nothing beyond itself scores exactly zero.
pub proof fn lemma_isolated_closeness_zero(m: GraphModel, v: int)
    requires
        model_wf(m),
        0 <= v < m.0.len(),
        forall|w: int| 0 <= w < m.0.len() && w != v ==> !crate::paths::reachable(m.1, v, w),
    ensures
        closeness_score_spec(m, v).frac() == (0int, 1int),
{
    lemma_dist_sum_isolated(m, v, m.1.len() as int);
}

/// The distance sum of a node that reaches nothing beyond itself is zero:
/// its own distance is zero and no other node contributes.
proof fn lemma_dist_sum_isolated(m: GraphModel, v: int, i: int)
    requires
        model_wf(m),
        0 <= v < m.0.len(),
        i <= m.1.len(),
        forall|w: int| 0 <= w < m.0.len() && w != v ==> !crate::paths::reachable(m.1, v, w),
    ensures
        dist_sum_upto(m.1, v, i) == 0,
    decreases i,
{
    if i > 0 {
        lemma_dist_sum_isolated(m, v, i - 1);
        if i - 1 == v {
            crate::paths::lemma_start_distance(m.1, v);
        }
    }
}

/// Law: closeness centrality is a pure function of the graph — it mutates
/// nothing, so two runs on the same unmodified graph return identical
/// tables.
pub proof fn lemma_closeness_idempotent(
    m: GraphModel,
    r1: Seq<(Seq<char>, ClosenessScore)>,
    r2: Seq<(Seq<char>, ClosenessScore)>,
)
    requires
        r1 == sort_desc(closeness_entries(m), close_ge()),
        r2 == sort_desc(closeness_entries(m), close_ge()),
    ensures
        r1 == r2,
{
}


/// Ranking `(label, count)` pairs by count is total and transitive.
pub proof fn lemma_deg_ge_order()
    ensures
        ge_total(deg_ge()),
        ge_trans(deg_ge()),
{
    assert forall|a: (Seq<char>, usize), b: (Seq<char>, usize)|
        #[trigger] deg_ge()(a, b) || #[trigger] deg_ge()(b, a) by {
        assert(a.1 >= b.1 || b.1 >= a.1);
    }
}

/// Law: a degree table is pairwise descending by count and holds exactly
/// the input entries, one per node.
pub proof fn lemma_degree_table_order(entries: Seq<(Seq<char>, usize)>)
    ensures
        sorted_desc(sort_desc(entries, deg_ge()), deg_ge()),
        sort_desc(entries, deg_ge()).to_multiset() == entries.to_multiset(),
{
    lemma_deg_ge_order();
    crate::ranking::lemma_sort_desc_sorted(entries, deg_ge());
    crate::ranking::lemma_sort_desc_multiset(entries, deg_ge());
}

/// Law: a closeness table is pairwise descending by exact rational score
/// and holds exactly the input entries, one per node.
pub proof fn lemma_closeness_table_order(entries: Seq<(Seq<char>, ClosenessScore)>)
    ensures
        sorted_desc(sort_desc(entries, close_ge()), close_ge()),
        sort_desc(entries, close_ge()).to_multiset() == entries.to_multiset(),
{
    lemma_score_ge_order();
    crate::ranking::lemma_sort_desc_sorted(entries, close_ge());
    crate::ranking::lemma_sort_desc_multiset(entries, close_ge());
}

} // verus!
