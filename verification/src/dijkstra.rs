//! Single-source shortest paths: Dijkstra's algorithm with lazy deletion.
//!
//! The engine drains a min-first priority queue of `(distance, vertex,
//! predecessor)` candidates. Entries are never updated in place: a better
//! candidate is simply pushed, and a popped entry that no longer matches
//! the distance table is stale and discarded. A query returns a table
//! mapping every vertex reachable from the start to its shortest distance
//! and a predecessor on a shortest path; the start maps to
//! "no predecessor", and a self-loop on the start never displaces that.

use vstd::prelude::*;

use crate::graph::{distinct_keys, entry_cost, DistTable, Graph, TableEntry};
use crate::heap::{Heap, MinFirst, MinHeap};
use crate::order::Orderable;

verus! {

/// The largest admissible edge weight.
pub const MAX_WEIGHT: u64 = 0xFFFF_FFFF;

/// The largest admissible vertex count.
pub const MAX_VERTICES: u64 = 0xFFFF_FFFF;

/// A queue candidate: vertex `vertex` may be reachable at distance
/// `dist` through predecessor `pred`. Candidates are ordered by
/// distance first, the rest only breaking ties.
#[derive(Clone, Copy)]
pub struct PathCandidate {
    /// The candidate distance from the start.
    pub dist: u64,
    /// The vertex the candidate settles.
    pub vertex: u64,
    /// The proposing predecessor.
    pub pred: u64,
}

/// Shorthand for building a candidate in specifications.
pub open spec fn cand_of(dist: u64, vertex: u64, pred: u64) -> PathCandidate {
    PathCandidate { dist, vertex, pred }
}

impl Orderable for PathCandidate {
    open spec fn le_spec(a: PathCandidate, b: PathCandidate) -> bool {
        a.dist < b.dist || (a.dist == b.dist && (a.vertex < b.vertex || (a.vertex == b.vertex
            && a.pred <= b.pred)))
    }

    proof fn lemma_total(a: PathCandidate, b: PathCandidate) {
    }

    proof fn lemma_transitive(a: PathCandidate, b: PathCandidate, c: PathCandidate) {
    }

    fn lt(&self, other: &Self) -> (r: bool) {
        if self.dist != other.dist {
            self.dist < other.dist
        } else if self.vertex != other.vertex {
            self.vertex < other.vertex
        } else {
            self.pred < other.pred
        }
    }
}

/// An edge from `a` to `b` exists.
pub open spec fn has_edge(g: Map<u64, Map<u64, u64>>, a: u64, b: u64) -> bool {
    g.dom().contains(a) && g[a].dom().contains(b)
}

/// `p` is a walk in `g`: non-empty, starting at a vertex of `g`, each
/// step along an edge.
pub open spec fn is_path(g: Map<u64, Map<u64, u64>>, p: Seq<u64>) -> bool {
    &&& p.len() >= 1
    &&& g.dom().contains(p[0])
    &&& forall|i: int| 0 <= i < p.len() - 1 ==> has_edge(g, #[trigger] p[i], p[i + 1])
}

/// The total weight of walk `p`.
pub open spec fn path_weight(g: Map<u64, Map<u64, u64>>, p: Seq<u64>) -> int
    decreases p.len(),
{
    if p.len() <= 1 {
        0
    } else {
        path_weight(g, p.drop_last()) + g[p[p.len() - 2]][p[p.len() - 1]]
    }
}

/// `p` is a walk from `s` to `v`.
pub open spec fn connects(g: Map<u64, Map<u64, u64>>, p: Seq<u64>, s: u64, v: u64) -> bool {
    is_path(g, p) && p[0] == s && p[p.len() - 1] == v
}

/// Some walk leads from `s` to `v`.
pub open spec fn reachable(g: Map<u64, Map<u64, u64>>, s: u64, v: u64) -> bool {
    exists|p: Seq<u64>| connects(g, p, s, v)
}

/// The distance a table records for `v`: the start's entry records zero.
pub open spec fn dist_of(t: Map<u64, TableEntry>, v: u64) -> int {
    match t[v] {
        None => 0,
        Some(pd) => pd.1 as int,
    }
}

/// What the engine asks of its input: the start is a vertex; every edge
/// target is a vertex; and, so that distance sums stay within `u64`,
/// weights and the vertex count are bounded.
pub open spec fn admissible(g: Map<u64, Map<u64, u64>>, start: u64) -> bool {
    &&& g.dom().contains(start)
    &&& g.dom().finite()
    &&& g.dom().len() <= MAX_VERTICES
    &&& forall|u: u64, v: u64| #[trigger] has_edge(g, u, v) ==> g.dom().contains(v)
    &&& forall|u: u64, v: u64| #[trigger] has_edge(g, u, v) ==> g[u][v] <= MAX_WEIGHT
}

/// The start maps to "no predecessor" and everything else to a
/// predecessor/distance pair.
pub open spec fn start_ok(start: u64, t: Map<u64, TableEntry>) -> bool {
    &&& t.dom().contains(start)
    &&& t[start] is None
    &&& forall|v: u64| #[trigger] t.dom().contains(v) && v != start ==> t[v] is Some
}

/// Every recorded predecessor is in the table, joined to its vertex by an
/// edge whose weight closes the distance equation exactly.
pub open spec fn entries_consistent(
    g: Map<u64, Map<u64, u64>>,
    start: u64,
    t: Map<u64, TableEntry>,
) -> bool {
    forall|v: u64| #[trigger] t.dom().contains(v) && v != start ==> (t[v] matches Some(pd)
        && has_edge(g, pd.0, v) && t.dom().contains(pd.0) && pd.1 == dist_of(t, pd.0) + g[pd.0][v])
}

/// No edge out of a table vertex can improve on the recorded distances.
pub open spec fn no_tense_edges(g: Map<u64, Map<u64, u64>>, t: Map<u64, TableEntry>) -> bool {
    forall|u: u64, x: u64|
        #[trigger] t.dom().contains(u) && #[trigger] has_edge(g, u, x) ==> t.dom().contains(x)
            && dist_of(t, x) <= dist_of(t, u) + g[u][x]
}

/// Each recorded distance is the least weight of any walk from the start.
pub open spec fn distances_minimal(
    g: Map<u64, Map<u64, u64>>,
    start: u64,
    t: Map<u64, TableEntry>,
) -> bool {
    &&& forall|v: u64, p: Seq<u64>| #[trigger] t.dom().contains(v) && #[trigger] connects(
        g,
        p,
        start,
        v,
    ) ==> path_weight(g, p) >= dist_of(t, v)
    &&& forall|v: u64| #[trigger] t.dom().contains(v) ==> exists|p: Seq<u64>| connects(
        g,
        p,
        start,
        v,
    ) && path_weight(g, p) == dist_of(t, v)
}

// ----- internal invariants of the engine -----

/// The running table: start entry in place; every key a graph vertex and
/// reachable; every non-start entry backed by an edge whose relaxation
/// can only have improved since it was recorded.
spec fn inv_table(g: Map<u64, Map<u64, u64>>, start: u64, t: Map<u64, TableEntry>) -> bool {
    &&& t.dom().contains(start)
    &&& t[start] is None
    &&& forall|v: u64| #[trigger] t.dom().contains(v) ==> g.dom().contains(v)
    &&& forall|v: u64| #[trigger] t.dom().contains(v) && v != start ==> (t[v] matches Some(pd)
        && has_edge(g, pd.0, v) && t.dom().contains(pd.0) && pd.1 >= dist_of(t, pd.0) + g[pd.0][v])
    &&& forall|v: u64| #[trigger] t.dom().contains(v) ==> reachable(g, start, v)
}

/// Every recorded distance is bounded by the key count times the largest
/// weight, which keeps candidate sums within `u64`.
spec fn inv_bound(t: Map<u64, TableEntry>, kc: int) -> bool {
    forall|v: u64| #[trigger] t.dom().contains(v) ==> dist_of(t, v) <= (kc - 1) * (
    MAX_WEIGHT as int)
}

/// Each table entry carries a write stamp; an entry whose distance
/// equation is currently tight was written after its predecessor's
/// entry. This is what rules predecessor cycles out.
spec fn inv_stamps(
    g: Map<u64, Map<u64, u64>>,
    start: u64,
    t: Map<u64, TableEntry>,
    stamp: Map<u64, nat>,
    now: nat,
) -> bool {
    &&& forall|v: u64| #[trigger] t.dom().contains(v) ==> stamp.dom().contains(v) && stamp[v] < now
    &&& forall|v: u64| #[trigger] t.dom().contains(v) && v != start ==> (t[v] matches Some(pd)
        && (pd.1 == dist_of(t, pd.0) + g[pd.0][v] ==> stamp[v] > stamp[pd.0]))
}

/// The engine's termination potential: recorded distances can only
/// shrink, and absent vertices carry the largest possible charge.
spec fn pot_of(t: DistTable, n: int) -> int {
    t.cost() + (n - t.key_count()) * (n * (MAX_WEIGHT as int) + 1)
}

/// A walk of one vertex.
proof fn lemma_reachable_self(g: Map<u64, Map<u64, u64>>, s: u64)
    requires
        g.dom().contains(s),
    ensures
        reachable(g, s, s),
        connects(g, seq![s], s, s),
        path_weight(g, seq![s]) == 0,
{
    let p = seq![s];
    assert(connects(g, p, s, s));
}

/// Extending a walk by one edge.
proof fn lemma_reachable_step(g: Map<u64, Map<u64, u64>>, s: u64, v: u64, x: u64)
    requires
        reachable(g, s, v),
        has_edge(g, v, x),
    ensures
        reachable(g, s, x),
{
    let p = choose|p: Seq<u64>| connects(g, p, s, v);
    let q = p.push(x);
    assert(q[q.len() - 1] == x);
    assert(q[0] == s);
    assert forall|i: int| 0 <= i < q.len() - 1 implies has_edge(g, #[trigger] q[i], q[i + 1]) by {
        if i < p.len() - 1 {
            assert(q[i] == p[i] && q[i + 1] == p[i + 1]);
        } else {
            assert(q[i] == p[p.len() - 1] && q[i + 1] == x);
        }
    }
    assert(connects(g, q, s, x));
}

/// Multiplying by a non-negative factor preserves order.
proof fn lemma_mul_mono(a: int, b: int, w: int)
    by (nonlinear_arith)
    requires
        a <= b,
        w >= 0,
    ensures
        a * w <= b * w,
{
}

/// A candidate distance fits in `u64`.
proof fn lemma_cand_fits(d: int, w: int, kc: int, n: int)
    by (nonlinear_arith)
    requires
        0 <= d <= (kc - 1) * (MAX_WEIGHT as int),
        0 <= w <= MAX_WEIGHT as int,
        1 <= kc <= n,
        n <= MAX_VERTICES as int,
    ensures
        d + w <= n * (MAX_WEIGHT as int),
        n * (MAX_WEIGHT as int) < u64::MAX as int,
{
}

/// Inserting a fresh vertex strictly lowers the potential.
proof fn lemma_pot_insert(cost: int, kc: int, n: int, d: int)
    by (nonlinear_arith)
    requires
        0 <= d <= kc * (MAX_WEIGHT as int),
        kc + 1 <= n,
        n <= MAX_VERTICES as int,
    ensures
        cost + d + (n - kc - 1) * (n * (MAX_WEIGHT as int) + 1) < cost + (n - kc) * (n * (
        MAX_WEIGHT as int) + 1),
{
}

/// The potential is non-negative.
proof fn lemma_pot_nonneg(cost: int, kc: int, n: int)
    by (nonlinear_arith)
    requires
        cost >= 0,
        kc <= n,
        n >= 0,
    ensures
        cost + (n - kc) * (n * (MAX_WEIGHT as int) + 1) >= 0,
{
}

/// Relax every edge out of `v`, whose recorded distance is `dist_v`:
/// record strictly better candidates in the table and push each freshly
/// recorded candidate onto the queue. The table only improves, `v`'s own
/// entry and the start's stay put, and afterwards no edge out of `v` is
/// tense.
fn relax_neighbors(
    graph: &Graph,
    table: &mut DistTable,
    prio: &mut Heap<PathCandidate, MinFirst<PathCandidate>>,
    start: u64,
    v: u64,
    dist_v: u64,
    Ghost(stamp0): Ghost<Map<u64, nat>>,
    Ghost(now0): Ghost<nat>,
) -> (clock: (Ghost<Map<u64, nat>>, Ghost<nat>))
    requires
        graph.well_formed(),
        admissible(graph@, start),
        old(table).well_formed(),
        old(prio).well_formed(),
        inv_table(graph@, start, old(table)@),
        inv_bound(old(table)@, old(table).key_count()),
        1 <= old(table).key_count() <= graph@.dom().len(),
        old(table)@.dom().contains(v),
        dist_of(old(table)@, v) == dist_v,
        inv_stamps(graph@, start, old(table)@, stamp0, now0),
    ensures
        final(table).well_formed(),
        final(prio).well_formed(),
        inv_table(graph@, start, final(table)@),
        inv_bound(final(table)@, final(table).key_count()),
        1 <= final(table).key_count() <= graph@.dom().len(),
        forall|x: u64| #[trigger] graph@[v].dom().contains(x) ==> final(table)@.dom().contains(x)
            && dist_of(final(table)@, x) <= dist_v + graph@[v][x],
        forall|x: u64| #[trigger] old(table)@.dom().contains(x) ==> final(table)@.dom().contains(x)
            && dist_of(final(table)@, x) <= dist_of(old(table)@, x),
        final(table)@[v] == old(table)@[v],
        final(table)@.dom() =~= old(table)@.dom().union(graph@[v].dom()),
        forall|e: PathCandidate| #[trigger]
            old(prio)@.to_multiset().count(e) <= final(prio)@.to_multiset().count(e),
        forall|x: u64| #[trigger] final(table)@.dom().contains(x)
            ==> (old(table)@.dom().contains(x) && final(table)@[x] == old(table)@[x])
            || (x != start && (final(table)@[x] matches Some(pd)
                && final(prio)@.to_multiset().count(cand_of(pd.1, x, pd.0)) > 0)),
        pot_of(*final(table), graph@.dom().len() as int) <= pot_of(
            *old(table),
            graph@.dom().len() as int,
        ),
        pot_of(*final(table), graph@.dom().len() as int) == pot_of(
            *old(table),
            graph@.dom().len() as int,
        ) ==> final(prio)@ == old(prio)@,
        inv_stamps(graph@, start, final(table)@, clock.0@, clock.1@),
{
    let ghost g = graph@;
    let ghost n = g.dom().len() as int;
    let ghost t0 = table@;
    let ghost q0 = prio@;
    let ghost pot0 = pot_of(*table, n);
    let ghost mut stamp = stamp0;
    let ghost mut now = now0;
    let nbrs = graph.neighbors(v);
    let m = nbrs.len();
    let mut j: usize = 0;
    while j < m
        invariant
            graph.well_formed(),
            admissible(g, start),
            g == graph@,
            n == g.dom().len() as int,
            m == nbrs@.len(),
            j <= m,
            distinct_keys(nbrs@),
            forall|jj: int| 0 <= jj < nbrs@.len() ==> g[v].dom().contains((#[trigger] nbrs@[jj]).0)
                && g[v][nbrs@[jj].0] == nbrs@[jj].1,
            forall|k: u64| #[trigger] g[v].dom().contains(k) ==> exists|jj: int|
                0 <= jj < nbrs@.len() && (#[trigger] nbrs@[jj]).0 == k,
            table.well_formed(),
            prio.well_formed(),
            inv_table(g, start, table@),
            inv_bound(table@, table.key_count()),
            1 <= table.key_count() <= n,
            g.dom().contains(v),
            table@.dom().contains(v),
            table@[v] == t0[v],
            dist_of(table@, v) == dist_v,
            forall|jj: int| 0 <= jj < j ==> table@.dom().contains((#[trigger] nbrs@[jj]).0)
                && dist_of(table@, nbrs@[jj].0) <= dist_v + nbrs@[jj].1,
            forall|x: u64| #[trigger] t0.dom().contains(x) ==> table@.dom().contains(x) && dist_of(
                table@,
                x,
            ) <= dist_of(t0, x),
            forall|x: u64| #[trigger] table@.dom().contains(x) ==> t0.dom().contains(x)
                || g[v].dom().contains(x),
            forall|e: PathCandidate| #[trigger]
                q0.to_multiset().count(e) <= prio@.to_multiset().count(e),
            forall|x: u64| #[trigger] table@.dom().contains(x) ==> (t0.dom().contains(x)
                && table@[x] == t0[x]) || (x != start && (table@[x] matches Some(pd)
                && prio@.to_multiset().count(cand_of(pd.1, x, pd.0)) > 0)),
            pot_of(*table, n) <= pot0,
            pot_of(*table, n) == pot0 ==> prio@ == q0,
            inv_stamps(g, start, table@, stamp, now),
        decreases m - j,
    {
        proof {
            broadcast use vstd::seq_lib::group_to_multiset_ensures;
        }
        let to = nbrs[j].0;
        let w = nbrs[j].1;
        proof {
            assert(has_edge(g, v, to));
            assert(w <= MAX_WEIGHT);
            lemma_cand_fits(dist_v as int, w as int, table.key_count(), n);
        }
        let cand = dist_v + w;
        let cur = table.lookup(to);
        let improve = match cur {
            None => true,
            Some(e) => match e {
                None => false,
                Some(pd) => cand < pd.1,
            },
        };
        if improve {
            proof {
                assert(to != start);
                assert(to != v);
                assert(g.dom().contains(to));
            }
            let ghost tb = table@;
            let ghost stb = stamp;
            let ghost kcb = table.key_count();
            let ghost costb = table.cost();
            let ghost potb = pot_of(*table, n);
            table.set(to, Some((v, cand)));
            prio.add(PathCandidate { dist: cand, vertex: to, pred: v });
            proof {
                stamp = stamp.insert(to, now);
                now = now + 1;
                assert(table@ == tb.insert(to, Some((v, cand))));
                // distances only shrank
                assert forall|y: u64| #[trigger] tb.dom().contains(y) implies
                    table@.dom().contains(y) && dist_of(table@, y) <= dist_of(tb, y) by {
                    if y == to {
                        assert(tb[to] matches Some(pd) && cand < pd.1);
                    }
                }
                // the recorded slack of every entry is preserved
                assert forall|x: u64| #[trigger] table@.dom().contains(x) && x != start implies (
                table@[x] matches Some(pd) && has_edge(g, pd.0, x) && table@.dom().contains(pd.0)
                    && pd.1 >= dist_of(table@, pd.0) + g[pd.0][x]) by {
                    if x == to {
                        assert(dist_of(table@, v) == dist_v);
                    } else {
                        assert(table@[x] == tb[x]);
                        assert(tb.dom().contains(x));
                        let pd = tb[x].unwrap();
                        assert(pd.1 >= dist_of(tb, pd.0) + g[pd.0][x]);
                        assert(dist_of(table@, pd.0) <= dist_of(tb, pd.0));
                    }
                }
                lemma_reachable_step(g, start, v, to);
                // the distance bound, by cases on whether `to` was fresh
                if tb.dom().contains(to) {
                    assert(table.key_count() == kcb);
                    assert forall|x: u64| #[trigger] table@.dom().contains(x) implies dist_of(
                        table@,
                        x,
                    ) <= (table.key_count() - 1) * (MAX_WEIGHT as int) by {
                        if x == to {
                            assert(dist_of(tb, to) <= (kcb - 1) * (MAX_WEIGHT as int));
                        }
                    }
                    // replacing an entry by a strictly smaller distance
                    assert(table.cost() == costb - entry_cost(tb[to]) + cand);
                    assert(table.cost() < costb);
                    assert(pot_of(*table, n) < potb);
                } else {
                    assert(table.key_count() == kcb + 1);
                    table.lemma_dom();
                    assert(table@.dom().subset_of(g.dom()));
                    vstd::set_lib::lemma_len_subset(table@.dom(), g.dom());
                    assert(table.key_count() <= n);
                    lemma_mul_mono(kcb - 1, kcb, MAX_WEIGHT as int);
                    assert(cand <= kcb * (MAX_WEIGHT as int));
                    assert forall|x: u64| #[trigger] table@.dom().contains(x) implies dist_of(
                        table@,
                        x,
                    ) <= (table.key_count() - 1) * (MAX_WEIGHT as int) by {
                        if x != to {
                            assert(dist_of(table@, x) <= (kcb - 1) * (MAX_WEIGHT as int));
                        }
                    }
                    assert(table.cost() == costb + cand);
                    lemma_pot_insert(costb, kcb, n, cand as int);
                    assert(pot_of(*table, n) < potb);
                }
                // stamps: the fresh entry is younger than its predecessor;
                // every other tight equation was tight before, or its
                // predecessor's distance just strictly dropped
                assert forall|x: u64| #[trigger] table@.dom().contains(x) && x != start implies (
                table@[x] matches Some(pd) && (pd.1 == dist_of(table@, pd.0) + g[pd.0][x]
                    ==> stamp[x] > stamp[pd.0])) by {
                    let pd = table@[x].unwrap();
                    if x == to {
                        assert(stamp[x] == now - 1);
                        assert(stb.dom().contains(v) && stb[v] < now - 1 || stb[v] < now0);
                        assert(tb.dom().contains(v));
                        assert(stb[v] < now - 1 || stamp[v] <= stb[v]);
                        assert(stamp[v] == stb[v]);
                    } else {
                        assert(table@[x] == tb[x]);
                        if pd.0 == to {
                            assert(dist_of(table@, to) < dist_of(tb, to));
                            assert(pd.1 >= dist_of(tb, pd.0) + g[pd.0][x]);
                        } else {
                            assert(dist_of(table@, pd.0) == dist_of(tb, pd.0));
                            assert(stamp[x] == stb[x] && stamp[pd.0] == stb[pd.0]);
                        }
                    }
                }
            }
        }
        j += 1;
    }
    proof {
        assert forall|x: u64| #[trigger] g[v].dom().contains(x) implies table@.dom().contains(x)
            && dist_of(table@, x) <= dist_v + g[v][x] by {
            let jj = choose|jj: int| 0 <= jj < nbrs@.len() && (#[trigger] nbrs@[jj]).0 == x;
            assert(table@.dom().contains(nbrs@[jj].0));
        }
        assert(table@.dom() =~= t0.dom().union(g[v].dom()));
    }
    (Ghost(stamp), Ghost(now))
}

/// A walk whose interior follows the table's predecessor links and whose
/// recorded distances accumulate the prefix weights exactly.
pub open spec fn pred_chain(
    g: Map<u64, Map<u64, u64>>,
    t: Map<u64, TableEntry>,
    p: Seq<u64>,
    start: u64,
    v: u64,
) -> bool {
    &&& connects(g, p, start, v)
    &&& forall|i: int| 1 <= i < p.len() ==> t.dom().contains(#[trigger] p[i]) && (t[p[i]] matches
        Some(pd) && pd.0 == p[i - 1] && pd.1 == path_weight(g, p.take(i + 1)))
}

/// Appending a vertex adds the closing edge's weight.
proof fn lemma_path_weight_push(g: Map<u64, Map<u64, u64>>, p: Seq<u64>, x: u64)
    requires
        p.len() >= 1,
    ensures
        path_weight(g, p.push(x)) == path_weight(g, p) + g[p[p.len() - 1]][x],
{
    assert(p.push(x).drop_last() =~= p);
}

/// Where no edge is tense, no walk from the start beats a recorded
/// distance, and every vertex a walk reaches is in the table.
proof fn lemma_no_tense_min(
    g: Map<u64, Map<u64, u64>>,
    start: u64,
    t: Map<u64, TableEntry>,
    p: Seq<u64>,
    v: u64,
)
    requires
        no_tense_edges(g, t),
        t.dom().contains(start),
        dist_of(t, start) == 0,
        connects(g, p, start, v),
    ensures
        t.dom().contains(v),
        dist_of(t, v) <= path_weight(g, p),
    decreases p.len(),
{
    if p.len() == 1 {
        assert(v == start);
    } else {
        let q = p.drop_last();
        let u = p[p.len() - 2];
        assert(connects(g, q, start, u)) by {
            assert(q[q.len() - 1] == u && q[0] == start);
            assert forall|i: int| 0 <= i < q.len() - 1 implies has_edge(g, #[trigger] q[i], q[i + 1])
                by {
                assert(q[i] == p[i] && q[i + 1] == p[i + 1]);
            }
        }
        lemma_no_tense_min(g, start, t, q, u);
        assert(has_edge(g, u, v));
        assert(dist_of(t, v) <= dist_of(t, u) + g[u][v]);
    }
}

/// Following predecessor links, stamped younger than their targets, back
/// from any table vertex yields a walk from the start whose weight is
/// exactly the recorded distance.
proof fn lemma_chain(
    g: Map<u64, Map<u64, u64>>,
    start: u64,
    t: Map<u64, TableEntry>,
    stamp: Map<u64, nat>,
    now: nat,
    v: u64,
)
    requires
        start_ok(start, t),
        entries_consistent(g, start, t),
        inv_stamps(g, start, t, stamp, now),
        forall|x: u64| #[trigger] t.dom().contains(x) ==> g.dom().contains(x),
        t.dom().contains(v),
    ensures
        exists|p: Seq<u64>|
            pred_chain(g, t, p, start, v) && path_weight(g, p) == dist_of(t, v),
    decreases stamp[v],
{
    if v == start {
        let p = seq![start];
        assert(connects(g, p, start, start));
        assert(pred_chain(g, t, p, start, start));
        assert(path_weight(g, p) == 0 && dist_of(t, start) == 0);
    } else {
        let pd = t[v].unwrap();
        assert(has_edge(g, pd.0, v) && t.dom().contains(pd.0));
        assert(pd.1 == dist_of(t, pd.0) + g[pd.0][v]);
        assert(stamp[v] > stamp[pd.0]);
        lemma_chain(g, start, t, stamp, now, pd.0);
        let q = choose|q: Seq<u64>|
            pred_chain(g, t, q, start, pd.0) && path_weight(g, q) == dist_of(t, pd.0);
        let p = q.push(v);
        lemma_path_weight_push(g, q, v);
        assert(q[q.len() - 1] == pd.0);
        assert(connects(g, p, start, v)) by {
            assert(p[0] == start && p[p.len() - 1] == v);
            assert forall|i: int| 0 <= i < p.len() - 1 implies has_edge(g, #[trigger] p[i], p[i + 1])
                by {
                if i < q.len() - 1 {
                    assert(p[i] == q[i] && p[i + 1] == q[i + 1]);
                } else {
                    assert(p[i] == pd.0 && p[i + 1] == v);
                }
            }
        }
        assert(pred_chain(g, t, p, start, v)) by {
            assert forall|i: int| 1 <= i < p.len() implies t.dom().contains(#[trigger] p[i]) && (
            t[p[i]] matches Some(pde) && pde.0 == p[i - 1] && pde.1 == path_weight(
                g,
                p.take(i + 1),
            )) by {
                if i < q.len() {
                    assert(p[i] == q[i] && p[i - 1] == q[i - 1]);
                    assert(p.take(i + 1) =~= q.take(i + 1));
                } else {
                    assert(p[i] == v && p[i - 1] == pd.0);
                    assert(p.take(i + 1) =~= p);
                    assert(path_weight(g, p) == dist_of(t, pd.0) + g[pd.0][v]);
                }
            }
        }
        assert(path_weight(g, p) == dist_of(t, v));
    }
}

/// Compute, for every vertex reachable from `start`, the least total
/// edge weight of any walk from `start` and a predecessor on such a
/// least-weight walk. The start itself maps to "no predecessor";
/// unreachable vertices are absent. Following the recorded predecessors
/// back from any returned vertex traces a least-weight walk whose prefix
/// weights are exactly the recorded distances.
pub fn dijkstra(graph: &Graph, start: u64) -> (table: DistTable)
    requires
        graph.well_formed(),
        admissible(graph@, start),
    ensures
        table.well_formed(),
        start_ok(start, table@),
        entries_consistent(graph@, start, table@),
        no_tense_edges(graph@, table@),
        forall|v: u64| #[trigger] table@.dom().contains(v) <==> reachable(graph@, start, v),
        distances_minimal(graph@, start, table@),
        forall|v: u64| #[trigger] table@.dom().contains(v) ==> exists|p: Seq<u64>|
            pred_chain(graph@, table@, p, start, v) && path_weight(graph@, p) == dist_of(
                table@,
                v,
            ),
{
    let ghost g = graph@;
    let n = graph.vertex_count();
    let ghost nn = n as int;
    let mut table = DistTable::new();
    let mut prio: Heap<PathCandidate, MinFirst<PathCandidate>> = MinHeap::new();

    table.set(start, None);
    proof {
        lemma_reachable_self(g, start);
        assert(table@ == Map::<u64, TableEntry>::empty().insert(start, None));
        table.lemma_dom();
        assert(table@.dom().subset_of(g.dom()));
        vstd::set_lib::lemma_len_subset(table@.dom(), g.dom());
        assert(inv_table(g, start, table@));
        assert(inv_bound(table@, table.key_count()));
    }
    let clock = relax_neighbors(
        graph,
        &mut table,
        &mut prio,
        start,
        start,
        0,
        Ghost(Map::<u64, nat>::empty().insert(start, 0)),
        Ghost(1nat),
    );
    let ghost mut stamp = clock.0@;
    let ghost mut now = clock.1@;
    let ghost mut processed = Set::<u64>::empty().insert(start);
    proof {
        broadcast use vstd::seq_lib::group_to_multiset_ensures;

        assert forall|x: u64| #[trigger] table@.dom().contains(x) && !processed.contains(x) implies (
        table@[x] matches Some(pd) && prio@.to_multiset().count(cand_of(pd.1, x, pd.0)) > 0) by {
            assert(x != start);
        }
        table.lemma_cost_nonneg();
        lemma_pot_nonneg(table.cost(), table.key_count(), nn);
    }

    while prio.len() != 0
        invariant
            graph.well_formed(),
            admissible(g, start),
            g == graph@,
            nn == g.dom().len() as int,
            table.well_formed(),
            prio.well_formed(),
            inv_table(g, start, table@),
            inv_bound(table@, table.key_count()),
            1 <= table.key_count() <= nn,
            inv_stamps(g, start, table@, stamp, now),
            processed.contains(start),
            forall|u: u64| #[trigger] processed.contains(u) ==> table@.dom().contains(u),
            forall|u: u64, x: u64|
                #[trigger] processed.contains(u) && #[trigger] has_edge(g, u, x)
                    ==> table@.dom().contains(x) && dist_of(table@, x) <= dist_of(table@, u)
                    + g[u][x],
            forall|x: u64| #[trigger] table@.dom().contains(x) && !processed.contains(x) ==> (
            table@[x] matches Some(pd) && prio@.to_multiset().count(cand_of(pd.1, x, pd.0)) > 0),
            pot_of(table, nn) >= 0,
        decreases pot_of(table, nn), prio@.len(),
    {
        proof {
            broadcast use vstd::seq_lib::group_to_multiset_ensures;
        }
        let e = prio.pop().unwrap();
        let ghost q_after_pop = prio@;
        let cur = table.lookup(e.vertex);
        let is_match = match cur {
            Some(entry) => match entry {
                Some(pd) => pd.0 == e.pred && pd.1 == e.dist,
                None => false,
            },
            None => false,
        };
        if is_match {
            let ghost t_before = table@;
            let ghost p_before = processed;
            let clock2 = relax_neighbors(
                graph,
                &mut table,
                &mut prio,
                start,
                e.vertex,
                e.dist,
                Ghost(stamp),
                Ghost(now),
            );
            proof {
                stamp = clock2.0@;
                now = clock2.1@;
                processed = Set::new(
                    |y: u64|
                        (p_before.contains(y) && t_before.dom().contains(y) && table@[y]
                            == t_before[y]) || y == e.vertex,
                );
                assert(processed.contains(start)) by {
                    assert(table@[start] is None && t_before[start] is None);
                }
                // processed vertices have no tense out-edges
                assert forall|u: u64, x: u64|
                    #[trigger] processed.contains(u) && #[trigger] has_edge(g, u, x) implies
                    table@.dom().contains(x) && dist_of(table@, x) <= dist_of(table@, u) + g[u][x]
                    by {
                    if u == e.vertex {
                        assert(dist_of(table@, u) == e.dist);
                    } else {
                        assert(dist_of(table@, x) <= dist_of(t_before, x));
                        assert(dist_of(table@, u) == dist_of(t_before, u));
                    }
                }
                // unprocessed table vertices still have a matching entry queued
                assert forall|x: u64|
                    #[trigger] table@.dom().contains(x) && !processed.contains(x) implies (
                table@[x] matches Some(pd) && prio@.to_multiset().count(cand_of(pd.1, x, pd.0)) > 0)
                    by {
                    if t_before.dom().contains(x) && table@[x] == t_before[x] {
                        assert(!p_before.contains(x));
                        let pd = table@[x].unwrap();
                        let f = cand_of(pd.1, x, pd.0);
                        assert(f.vertex == x && x != e.vertex);
                        assert(f != e);
                        assert(q_after_pop.to_multiset().count(f) > 0);
                    }
                }
                table.lemma_cost_nonneg();
                lemma_pot_nonneg(table.cost(), table.key_count(), nn);
            }
        } else {
            proof {
                assert forall|x: u64|
                    #[trigger] table@.dom().contains(x) && !processed.contains(x) implies (
                table@[x] matches Some(pd) && prio@.to_multiset().count(cand_of(pd.1, x, pd.0)) > 0)
                    by {
                    let pd = table@[x].unwrap();
                    let f = cand_of(pd.1, x, pd.0);
                    assert(f != e);
                }
            }
        }
    }

    proof {
        broadcast use vstd::seq_lib::group_to_multiset_ensures;

        // an empty queue means every table vertex is processed
        assert forall|x: u64| #[trigger] table@.dom().contains(x) implies processed.contains(x) by {
            if !processed.contains(x) {
                let pd = table@[x].unwrap();
                let f = cand_of(pd.1, x, pd.0);
                assert(prio@.to_multiset().count(f) > 0);
                assert(prio@.contains(f));
            }
        }
        assert(no_tense_edges(g, table@));
        assert(entries_consistent(g, start, table@)) by {
            assert forall|v: u64| #[trigger] table@.dom().contains(v) && v != start implies (
            table@[v] matches Some(pd) && has_edge(g, pd.0, v) && table@.dom().contains(pd.0)
                && pd.1 == dist_of(table@, pd.0) + g[pd.0][v]) by {
                let pd = table@[v].unwrap();
                assert(has_edge(g, pd.0, v));
                assert(dist_of(table@, v) <= dist_of(table@, pd.0) + g[pd.0][v]);
            }
        }
        // the table holds exactly the reachable vertices
        assert forall|v: u64| reachable(g, start, v) implies #[trigger] table@.dom().contains(v) by {
            let p = choose|p: Seq<u64>| connects(g, p, start, v);
            lemma_no_tense_min(g, start, table@, p, v);
        }
        // no walk beats a recorded distance
        assert forall|v: u64, p: Seq<u64>|
            #[trigger] table@.dom().contains(v) && #[trigger] connects(g, p, start, v) implies
            path_weight(g, p) >= dist_of(table@, v) by {
            lemma_no_tense_min(g, start, table@, p, v);
        }
        // every recorded distance is achieved by its predecessor chain
        assert forall|v: u64| #[trigger] table@.dom().contains(v) implies exists|p: Seq<u64>|
            pred_chain(g, table@, p, start, v) && path_weight(g, p) == dist_of(table@, v) by {
            lemma_chain(g, start, table@, stamp, now, v);
        }
        assert forall|v: u64| #[trigger] table@.dom().contains(v) implies exists|p: Seq<u64>|
            connects(g, p, start, v) && path_weight(g, p) == dist_of(table@, v) by {
            let p = choose|p: Seq<u64>|
                pred_chain(g, table@, p, start, v) && path_weight(g, p) == dist_of(table@, v);
            assert(connects(g, p, start, v) && path_weight(g, p) == dist_of(table@, v));
        }
    }

    table
}

} // verus!
