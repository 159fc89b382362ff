//! Depth-first search for a target vertex over an edge-list graph,
//! reporting the visit history up to and including the target.

use vstd::prelude::*;

verus! {

broadcast use vstd::seq_lib::group_seq_properties;

/// A vertex, identified by a number.
#[derive(Copy, Clone, PartialEq, Eq, Structural)]
pub struct Vertex(u32);

/// A directed edge between two vertex identifiers.
#[derive(Copy, Clone, PartialEq, Eq, Structural)]
pub struct Edge(u32, u32);

/// An edge-list graph. The traversal reads only the edges.
#[derive(Clone)]
pub struct Graph {
    vertices: Vec<Vertex>,
    edges: Vec<Edge>,
}

impl View for Vertex {
    type V = u32;

    closed spec fn view(&self) -> u32 {
        self.0
    }
}

impl View for Edge {
    type V = (u32, u32);

    closed spec fn view(&self) -> (u32, u32) {
        (self.0, self.1)
    }
}

impl View for Graph {
    type V = Seq<(u32, u32)>;

    closed spec fn view(&self) -> Seq<(u32, u32)> {
        self.edges@.map_values(|e: Edge| e@)
    }
}

/// The edge list `es` joins `a` directly to `b`.
pub open spec fn edge_in(es: Seq<(u32, u32)>, a: u32, b: u32) -> bool {
    exists|i: int| 0 <= i < es.len() && es[i] == (a, b)
}

/// `p` is a walk along the edges of `es`.
pub open spec fn walk(es: Seq<(u32, u32)>, p: Seq<u32>) -> bool {
    p.len() >= 1 && forall|i: int| 0 <= i < p.len() - 1 ==> edge_in(es, #[trigger] p[i], p[i + 1])
}

/// `x` is the target of some edge of `es`.
pub open spec fn is_target(es: Seq<(u32, u32)>, x: u32) -> bool {
    exists|j: int| 0 <= j < es.len() && (#[trigger] es[j]).1 == x
}

/// Some walk along `es` leads from `s` to `v`; trivially, every vertex
/// identifier reaches itself.
pub open spec fn reach(es: Seq<(u32, u32)>, s: u32, v: u32) -> bool {
    exists|p: Seq<u32>| walk(es, p) && p[0] == s && p[p.len() - 1] == v
}

impl Graph {
    /// Build a graph from its vertex and edge lists.
    pub fn new(vertices: Vec<Vertex>, edges: Vec<Edge>) -> (g: Self)
        ensures
            g@ == edges@.map_values(|e: Edge| e@),
    {
        Graph { vertices, edges }
    }
}

impl From<u32> for Vertex {
    fn from(item: u32) -> (r: Self) {
        Vertex(item)
    }
}

impl vstd::std_specs::convert::FromSpecImpl<u32> for Vertex {
    open spec fn obeys_from_spec() -> bool {
        true
    }

    closed spec fn from_spec(item: u32) -> Vertex {
        Vertex(item)
    }
}

impl From<(u32, u32)> for Edge {
    fn from(item: (u32, u32)) -> (r: Self) {
        Edge(item.0, item.1)
    }
}

impl vstd::std_specs::convert::FromSpecImpl<(u32, u32)> for Edge {
    open spec fn obeys_from_spec() -> bool {
        true
    }

    closed spec fn from_spec(item: (u32, u32)) -> Edge {
        Edge(item.0, item.1)
    }
}

impl Vertex {
    /// The vertex's identifier.
    pub fn value(&self) -> (r: u32)
        ensures
            r == self@,
    {
        self.0
    }

    /// The direct successors of this vertex: every edge source matching
    /// it contributes its target, and nothing else.
    pub fn neighbors(&self, graph: &Graph) -> (r: Vec<Vertex>)
        ensures
            forall|j: int| 0 <= j < r@.len() ==> edge_in(graph@, self@, (#[trigger] r@[j])@),
            forall|b: u32| edge_in(graph@, self@, b) ==> exists|j: int|
                0 <= j < r@.len() && (#[trigger] r@[j])@ == b,
    {
        let mut r: Vec<Vertex> = Vec::new();
        let n = graph.edges.len();
        let mut i: usize = 0;
        while i < n
            invariant
                i <= n,
                n == graph.edges@.len(),
                graph@.len() == n,
                forall|k: int| 0 <= k < n ==> graph@[k] == (#[trigger] graph.edges@[k])@,
                forall|j: int| 0 <= j < r@.len() ==> edge_in(graph@, self@, (#[trigger] r@[j])@),
                forall|k: int| 0 <= k < i && (#[trigger] graph.edges@[k])@.0 == self@ ==> exists|
                    j: int,
                |
                    0 <= j < r@.len() && (#[trigger] r@[j])@ == graph.edges@[k]@.1,
            decreases n - i,
        {
            let e = graph.edges[i];
            let ghost r_old = r@;
            proof {
                assert(graph.edges@[i as int]@ == (e.0, e.1));
                assert(self@ == self.0);
            }
            if e.0 == self.0 {
                r.push(Vertex(e.1));
                proof {
                    assert(graph@[i as int] == (self@, e.1));
                    assert((r@[r@.len() - 1])@ == graph.edges@[i as int]@.1);
                }
            }
            proof {
                assert forall|k: int|
                    0 <= k < i + 1 && (#[trigger] graph.edges@[k])@.0 == self@ implies exists|
                    j: int,
                |
                    0 <= j < r@.len() && (#[trigger] r@[j])@ == graph.edges@[k]@.1 by {
                    if k < i {
                        let j = choose|j: int|
                            0 <= j < r_old.len() && (#[trigger] r_old[j])@ == graph.edges@[k]@.1;
                        assert((r@[j])@ == graph.edges@[k]@.1);
                    }
                }
            }
            i += 1;
        }
        proof {
            assert forall|b: u32| edge_in(graph@, self@, b) implies exists|j: int|
                0 <= j < r@.len() && (#[trigger] r@[j])@ == b by {
                let k = choose|k: int| 0 <= k < graph@.len() && graph@[k] == (self@, b);
                assert(graph.edges@[k]@ == (self@, b));
            }
        }
        r
    }
}

/// Walking one edge extends reachability.
proof fn lemma_reach_step(es: Seq<(u32, u32)>, s: u32, v: u32, b: u32)
    requires
        reach(es, s, v),
        edge_in(es, v, b),
    ensures
        reach(es, s, b),
{
    let p = choose|p: Seq<u32>| walk(es, p) && p[0] == s && p[p.len() - 1] == v;
    let q = p.push(b);
    assert forall|i: int| 0 <= i < q.len() - 1 implies edge_in(es, #[trigger] q[i], q[i + 1]) by {
        if i < p.len() - 1 {
            assert(q[i] == p[i] && q[i + 1] == p[i + 1]);
        } else {
            assert(q[i] == p[p.len() - 1] && q[i + 1] == b);
        }
    }
    assert(walk(es, q) && q[0] == s && q[q.len() - 1] == b);
}

/// A set of identifiers closed under the edges and holding `s` holds
/// everything `s` reaches.
proof fn lemma_closed_set_covers(es: Seq<(u32, u32)>, done: Set<u32>, s: u32, p: Seq<u32>)
    requires
        done.contains(s),
        forall|v: u32, b: u32| done.contains(v) && edge_in(es, v, b) ==> done.contains(b),
        walk(es, p),
        p[0] == s,
    ensures
        done.contains(p[p.len() - 1]),
    decreases p.len(),
{
    if p.len() > 1 {
        let q = p.drop_last();
        assert(walk(es, q)) by {
            assert forall|i: int| 0 <= i < q.len() - 1 implies edge_in(es, #[trigger] q[i], q[i + 1])
                by {
                assert(q[i] == p[i] && q[i + 1] == p[i + 1]);
            }
        }
        lemma_closed_set_covers(es, done, s, q);
        assert(edge_in(es, p[p.len() - 2], p[p.len() - 1]));
    }
}

/// Search the graph depth-first from `root` for `objective`. Returns the
/// visit history, ending with the objective, exactly when some chain of
/// edges leads from the root to the objective; every visited vertex is
/// itself reachable from the root.
pub fn depth_first_search(graph: &Graph, root: Vertex, objective: Vertex) -> (r: Option<Vec<u32>>)
    ensures
        r is Some <==> reach(graph@, root@, objective@),
        r matches Some(h) ==> {
            &&& h@.len() >= 1
            &&& h@[0] == root@
            &&& h@[h@.len() - 1] == objective@
            &&& forall|i: int| 0 <= i < h@.len() ==> reach(graph@, root@, #[trigger] h@[i])
        },
{
    let ghost es = graph@;
    let bound = graph.edges.len();
    let mut visited: Vec<u32> = Vec::new();
    let mut history: Vec<u32> = Vec::new();
    let mut queue: Vec<Vertex> = Vec::new();
    let ghost mut processed = Set::<u32>::empty();
    queue.push(root);
    proof {
        assert(walk(es, seq![root@]) && seq![root@][0] == root@);
        assert(reach(es, root@, root@));
        assert((queue@[0])@ == root@);
    }

    loop
        invariant_except_break
            es == graph@,
            bound == graph.edges@.len(),
            es.len() == bound,
            visited@.no_duplicates(),
            visited@.len() <= bound,
            forall|k: int| 0 <= k < visited@.len() ==> is_target(es, #[trigger] visited@[k]),
            forall|k: int| 0 <= k < queue@.len() ==> reach(es, root@, (#[trigger] queue@[k])@),
            forall|k: int| 0 <= k < history@.len() ==> reach(es, root@, #[trigger] history@[k]),
            history@.len() > 0 ==> history@[0] == root@,
            history@.len() == 0 ==> queue@ == seq![root],
            forall|v: u32| #[trigger] processed.contains(v) ==> v != objective@,
            forall|v: u32, b: u32|
                #[trigger] processed.contains(v) && #[trigger] edge_in(es, v, b)
                    ==> visited@.contains(b),
            forall|k: int| 0 <= k < visited@.len() ==> processed.contains(#[trigger] visited@[k])
                || exists|j: int| 0 <= j < queue@.len() && (#[trigger] queue@[j])@ == visited@[k],
            processed.contains(root@) || exists|j: int|
                0 <= j < queue@.len() && (#[trigger] queue@[j])@ == root@,
        ensures
            reach(es, root@, objective@) ==> false,
        decreases bound - visited@.len(), queue@.len(),
    {
        if queue.len() == 0 {
            proof {
                let done = processed;
                assert forall|k: int| 0 <= k < visited@.len() implies done.contains(
                    #[trigger] visited@[k],
                ) by {}
                if reach(es, root@, objective@) {
                    assert(done.contains(root@));
                    assert forall|v: u32, b: u32|
                        #[trigger] done.contains(v) && #[trigger] edge_in(es, v, b) implies done.contains(b)
                        by {
                        assert(visited@.contains(b));
                        let k = choose|k: int| 0 <= k < visited@.len() && visited@[k] == b;
                        assert(done.contains(visited@[k]));
                    }
                    let p = choose|p: Seq<u32>|
                        walk(es, p) && p[0] == root@ && p[p.len() - 1] == objective@;
                    lemma_closed_set_covers(es, done, root@, p);
                }
            }
            break ;
        }
        let ghost q_pre = queue@;
        let current_vertex = queue.pop().unwrap();
        history.push(current_vertex.value());

        if current_vertex.0 == objective.0 {
            proof {
                assert(current_vertex@ == objective@);
                assert(history@[history@.len() - 1] == objective@);
            }
            return Some(history);
        }
        proof {
            processed = processed.insert(current_vertex@);
            assert forall|k: int| 0 <= k < visited@.len() implies processed.contains(
                #[trigger] visited@[k],
            ) || exists|j: int| 0 <= j < queue@.len() && (#[trigger] queue@[j])@ == visited@[k] by {
                if !processed.contains(visited@[k]) {
                    let j = choose|j: int|
                        0 <= j < q_pre.len() && (#[trigger] q_pre[j])@ == visited@[k];
                    assert(j < q_pre.len() - 1);
                    assert((queue@[j])@ == visited@[k]);
                }
            }
            assert(processed.contains(root@) || exists|j: int|
                0 <= j < queue@.len() && (#[trigger] queue@[j])@ == root@) by {
                if !processed.contains(root@) {
                    let j = choose|j: int| 0 <= j < q_pre.len() && (#[trigger] q_pre[j])@ == root@;
                    assert(j < q_pre.len() - 1);
                    assert((queue@[j])@ == root@);
                }
            }
        }

        let nbrs = current_vertex.neighbors(graph);
        let ghost visited_at_entry = visited@;
        let ghost queue_at_entry = queue@;
        let mut t = nbrs.len();
        while t > 0
            invariant
                t <= nbrs@.len(),
                es == graph@,
                bound == graph.edges@.len(),
                es.len() == bound,
                visited@.no_duplicates(),
                visited@.len() <= bound,
                reach(es, root@, current_vertex@),
                forall|j: int| 0 <= j < nbrs@.len() ==> edge_in(
                    es,
                    current_vertex@,
                    (#[trigger] nbrs@[j])@,
                ),
                forall|k: int| 0 <= k < visited@.len() ==> is_target(es, #[trigger] visited@[k]),
                forall|k: int| 0 <= k < queue@.len() ==> reach(es, root@, (#[trigger] queue@[k])@),
                forall|v: u32, b: u32|
                    #[trigger] processed.contains(v) && #[trigger] edge_in(es, v, b)
                        ==> visited@.contains(b) || exists|j: int|
                        0 <= j < t && (#[trigger] nbrs@[j])@ == b && v == current_vertex@,
                forall|k: int| 0 <= k < visited@.len() ==> processed.contains(
                    #[trigger] visited@[k],
                ) || exists|j: int| 0 <= j < queue@.len() && (#[trigger] queue@[j])@ == visited@[k],
                processed.contains(root@) || exists|j: int|
                    0 <= j < queue@.len() && (#[trigger] queue@[j])@ == root@,
                visited@.len() >= visited_at_entry.len(),
                visited@.len() > visited_at_entry.len() || queue@.len() == queue_at_entry.len(),
            decreases t,
        {
            t -= 1;
            let neighbor = nbrs[t];
            let mut seen = false;
            let mut w: usize = 0;
            while w < visited.len()
                invariant
                    w <= visited@.len(),
                    seen == exists|k: int| 0 <= k < w && visited@[k] == neighbor@,
                decreases visited@.len() - w,
            {
                if visited[w] == neighbor.0 {
                    seen = true;
                    proof {
                        assert(visited@[w as int] == neighbor@);
                    }
                }
                w += 1;
            }
            if !seen {
                proof {
                    assert(!visited@.contains(neighbor@));
                    assert(edge_in(es, current_vertex@, neighbor@));
                    lemma_reach_step(es, root@, current_vertex@, neighbor@);
                    // the fresh identifier is some edge's target, so the
                    // visited list stays within its bound
                    let j = choose|j: int| 0 <= j < es.len() && es[j] == (current_vertex@, neighbor@);
                    let targets = Seq::new(es.len(), |j: int| es[j].1);
                    assert forall|k: int| 0 <= k < visited@.len() + 1 implies targets.contains(
                        #[trigger] visited@.push(neighbor@)[k],
                    ) by {
                        if k < visited@.len() {
                            let jj = choose|jj: int|
                                0 <= jj < es.len() && (#[trigger] es[jj]).1 == visited@[k];
                            assert(targets[jj] == visited@[k]);
                        } else {
                            assert(targets[j] == neighbor@);
                        }
                    }
                    assert(visited@.push(neighbor@).no_duplicates());
                    lemma_distinct_in_seq_bound(visited@.push(neighbor@), targets);
                }
                let ghost v_pre = visited@;
                let ghost q_pre2 = queue@;
                visited.push(neighbor.0);
                queue.push(neighbor);
                proof {
                    assert((queue@[queue@.len() - 1])@ == neighbor@);
                    assert(visited@[visited@.len() - 1] == neighbor@);
                    assert forall|k: int| 0 <= k < visited@.len() implies processed.contains(
                        #[trigger] visited@[k],
                    ) || exists|j: int|
                        0 <= j < queue@.len() && (#[trigger] queue@[j])@ == visited@[k] by {
                        if k < v_pre.len() {
                            assert(visited@[k] == v_pre[k]);
                            if !processed.contains(v_pre[k]) {
                                let j = choose|j: int|
                                    0 <= j < q_pre2.len() && (#[trigger] q_pre2[j])@ == v_pre[k];
                                assert((queue@[j])@ == visited@[k]);
                            }
                        } else {
                            assert((queue@[queue@.len() - 1])@ == visited@[k]);
                        }
                    }
                    assert(processed.contains(root@) || exists|j: int|
                        0 <= j < queue@.len() && (#[trigger] queue@[j])@ == root@) by {
                        if !processed.contains(root@) {
                            let j = choose|j: int|
                                0 <= j < q_pre2.len() && (#[trigger] q_pre2[j])@ == root@;
                            assert((queue@[j])@ == root@);
                        }
                    }
                }
            }
        }
        proof {
            // every neighbor of the now-processed vertex is recorded
            assert forall|v: u32, b: u32|
                #[trigger] processed.contains(v) && #[trigger] edge_in(es, v, b) implies
                visited@.contains(b) by {}
        }
    }
    proof {
        assert(!reach(es, root@, objective@));
    }
    None
}

/// A duplicate-free sequence drawn from another sequence's values is no
/// longer than it.
proof fn lemma_distinct_in_seq_bound(s: Seq<u32>, pool: Seq<u32>)
    requires
        s.no_duplicates(),
        forall|k: int| 0 <= k < s.len() ==> pool.contains(#[trigger] s[k]),
    ensures
        s.len() <= pool.len(),
{
    broadcast use vstd::set::group_set_axioms;

    s.unique_seq_to_set();
    assert(s.to_set().subset_of(pool.to_set())) by {
        assert forall|x: u32| s.to_set().contains(x) implies pool.to_set().contains(x) by {
            assert(s.contains(x));
            let k = choose|k: int| 0 <= k < s.len() && s[k] == x;
            assert(pool.contains(x));
        }
    }
    pool.lemma_cardinality_of_set();
    vstd::set_lib::lemma_len_subset(s.to_set(), pool.to_set());
}

} // verus!
