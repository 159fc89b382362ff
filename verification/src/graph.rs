//! The adjacency structure and the distance/predecessor table of the
//! shortest-path engine.
//!
//! Both are association vectors with distinct keys, viewed as
//! mathematical maps: the graph maps a vertex to its neighbor map
//! (neighbor vertex to edge weight), and the table maps a vertex to
//! either no predecessor (reserved for the start of a query) or a
//! `(predecessor, distance)` pair.

use vstd::prelude::*;

verus! {

/// The map an association sequence denotes: later pairs win, though with
/// distinct keys the order never matters.
pub open spec fn assoc_map<V>(s: Seq<(u64, V)>) -> Map<u64, V>
    decreases s.len(),
{
    if s.len() == 0 {
        Map::empty()
    } else {
        assoc_map(s.drop_last()).insert(s.last().0, s.last().1)
    }
}

/// No key occurs twice.
pub open spec fn distinct_keys<V>(s: Seq<(u64, V)>) -> bool {
    forall|a: int, b: int| 0 <= a < b < s.len() ==> (#[trigger] s[a]).0 != (#[trigger] s[b]).0
}

/// A key is in the denoted map exactly when some pair carries it.
pub proof fn lemma_assoc_dom<V>(s: Seq<(u64, V)>)
    ensures
        forall|k: u64| #[trigger]
            assoc_map(s).dom().contains(k) <==> exists|i: int| 0 <= i < s.len() && (#[trigger] s[i]).0 == k,
    decreases s.len(),
{
    if s.len() > 0 {
        lemma_assoc_dom(s.drop_last());
        assert forall|k: u64| #[trigger] assoc_map(s).dom().contains(k) implies exists|i: int|
            0 <= i < s.len() && (#[trigger] s[i]).0 == k by {
            if k == s.last().0 {
                assert((s[s.len() - 1]).0 == k);
            } else {
                assert(assoc_map(s.drop_last()).dom().contains(k));
                let i = choose|i: int|
                    0 <= i < s.drop_last().len() && (#[trigger] s.drop_last()[i]).0 == k;
                assert(s.drop_last()[i] == s[i]);
                assert((s[i]).0 == k);
            }
        }
        assert forall|k: u64|
            (exists|i: int| 0 <= i < s.len() && (#[trigger] s[i]).0 == k) implies #[trigger]
            assoc_map(s).dom().contains(k) by {
            let i = choose|i: int| 0 <= i < s.len() && (#[trigger] s[i]).0 == k;
            if i < s.len() - 1 {
                assert((s.drop_last()[i]).0 == k);
                assert(assoc_map(s.drop_last()).dom().contains(k));
            }
        }
    }
}

/// With distinct keys, the pair at any index gives the map's value there.
pub proof fn lemma_assoc_index<V>(s: Seq<(u64, V)>, i: int)
    requires
        distinct_keys(s),
        0 <= i < s.len(),
    ensures
        assoc_map(s).dom().contains(s[i].0),
        assoc_map(s)[s[i].0] == s[i].1,
    decreases s.len(),
{
    if i == s.len() - 1 {
    } else {
        assert(distinct_keys(s.drop_last()));
        lemma_assoc_index(s.drop_last(), i);
        assert(s.drop_last()[i] == s[i]);
        assert(s[i].0 != s.last().0);
    }
}

/// Updating the pair at an index updates the map at that pair's key.
pub proof fn lemma_assoc_update<V>(s: Seq<(u64, V)>, i: int, v: V)
    requires
        distinct_keys(s),
        0 <= i < s.len(),
    ensures
        distinct_keys(s.update(i, (s[i].0, v))),
        assoc_map(s.update(i, (s[i].0, v))) == assoc_map(s).insert(s[i].0, v),
    decreases s.len(),
{
    let t = s.update(i, (s[i].0, v));
    assert(distinct_keys(t));
    if i == s.len() - 1 {
        assert(t.drop_last() =~= s.drop_last());
        assert(assoc_map(t) =~= assoc_map(s).insert(s[i].0, v));
    } else {
        assert(distinct_keys(s.drop_last()));
        lemma_assoc_update(s.drop_last(), i, v);
        assert(t.drop_last() =~= s.drop_last().update(i, (s[i].0, v)));
        assert(t.last() == s.last());
        lemma_assoc_index(s, i);
        assert(s[i].0 != s.last().0);
        assert(assoc_map(t) =~= assoc_map(s).insert(s[i].0, v));
    }
}

/// Appending a pair inserts its key.
pub proof fn lemma_assoc_push<V>(s: Seq<(u64, V)>, k: u64, v: V)
    ensures
        assoc_map(s.push((k, v))) == assoc_map(s).insert(k, v),
{
    assert(s.push((k, v)).drop_last() =~= s);
}

/// The denoted map's domain is finite, no larger than the sequence, and
/// exactly as large when the keys are distinct.
pub proof fn lemma_assoc_dom_len<V>(s: Seq<(u64, V)>)
    ensures
        assoc_map(s).dom().finite(),
        assoc_map(s).dom().len() <= s.len(),
        distinct_keys(s) ==> assoc_map(s).dom().len() == s.len(),
    decreases s.len(),
{
    if s.len() > 0 {
        lemma_assoc_dom_len(s.drop_last());
        if distinct_keys(s) {
            assert(distinct_keys(s.drop_last()));
            lemma_assoc_dom(s.drop_last());
            assert(!assoc_map(s.drop_last()).dom().contains(s.last().0)) by {
                if assoc_map(s.drop_last()).dom().contains(s.last().0) {
                    let i = choose|i: int|
                        0 <= i < s.drop_last().len() && (#[trigger] s.drop_last()[i]).0
                            == s.last().0;
                    assert((s[i]).0 == s.last().0);
                }
            }
        }
    }
}

/// A directed graph with non-negative integer edge weights, held as an
/// adjacency vector: one entry per vertex, carrying that vertex's
/// neighbor vector. Every vertex named by an edge is present as a key.
pub struct Graph {
    adj: Vec<(u64, Vec<(u64, u64)>)>,
}

/// The nested map a graph denotes.
pub open spec fn graph_view(s: Seq<(u64, Vec<(u64, u64)>)>) -> Map<u64, Map<u64, u64>> {
    assoc_map(s.map_values(|p: (u64, Vec<(u64, u64)>)| (p.0, assoc_map(p.1@))))
}

/// The result of recording an edge `from -> to` of weight `w`: `from`'s
/// neighbor map gains (or updates) `to`, and `to` is made present.
pub open spec fn with_edge(g: Map<u64, Map<u64, u64>>, from: u64, to: u64, w: u64) -> Map<
    u64,
    Map<u64, u64>,
> {
    let nf = if g.dom().contains(from) {
        g[from]
    } else {
        Map::empty()
    };
    let g1 = g.insert(from, nf.insert(to, w));
    if g1.dom().contains(to) {
        g1
    } else {
        g1.insert(to, Map::empty())
    }
}

impl View for Graph {
    type V = Map<u64, Map<u64, u64>>;

    closed spec fn view(&self) -> Map<u64, Map<u64, u64>> {
        graph_view(self.adj@)
    }
}

impl Graph {
    /// The structural invariant: outer keys distinct, and each neighbor
    /// vector's keys distinct.
    pub closed spec fn well_formed(self) -> bool {
        &&& distinct_keys(self.adj@)
        &&& forall|i: int| 0 <= i < self.adj@.len() ==> distinct_keys((#[trigger] self.adj@[i]).1@)
    }

    /// The mapped association sequence underlying the view.
    spec fn mapped(self) -> Seq<(u64, Map<u64, u64>)> {
        self.adj@.map_values(|p: (u64, Vec<(u64, u64)>)| (p.0, assoc_map(p.1@)))
    }

    /// An empty graph.
    pub fn new() -> (g: Graph)
        ensures
            g.well_formed(),
            g@ == Map::<u64, Map<u64, u64>>::empty(),
    {
        let g = Graph { adj: Vec::new() };
        proof {
            assert(g.mapped() =~= Seq::<(u64, Map<u64, u64>)>::empty());
        }
        g
    }

    /// Index of the entry of vertex `v`, if present.
    fn find(&self, v: u64) -> (r: Option<usize>)
        ensures
            r matches Some(i) ==> i < self.adj@.len() && self.adj@[i as int].0 == v,
            r is None ==> forall|i: int| 0 <= i < self.adj@.len() ==> (#[trigger] self.adj@[i]).0
                != v,
    {
        let mut i: usize = 0;
        while i < self.adj.len()
            invariant
                i <= self.adj@.len(),
                forall|j: int| 0 <= j < i ==> (#[trigger] self.adj@[j]).0 != v,
            decreases self.adj@.len() - i,
        {
            if self.adj[i].0 == v {
                return Some(i);
            }
            i += 1;
        }
        None
    }

    /// Whether vertex `v` is present as a key.
    pub fn contains(&self, v: u64) -> (r: bool)
        ensures
            r == self@.dom().contains(v),
    {
        proof {
            lemma_assoc_dom(self.mapped());
        }
        match self.find(v) {
            Some(i) => {
                proof {
                    assert(self.mapped()[i as int].0 == v);
                }
                true
            },
            None => {
                proof {
                    assert forall|i: int| 0 <= i < self.mapped().len() implies (
                    #[trigger] self.mapped()[i]).0 != v by {
                        assert(self.adj@[i].0 != v);
                    }
                }
                false
            },
        }
    }

    /// The number of vertices.
    pub fn vertex_count(&self) -> (n: usize)
        requires
            self.well_formed(),
        ensures
            n == self@.dom().len(),
            self@.dom().finite(),
    {
        proof {
            assert(distinct_keys(self.mapped()));
            lemma_assoc_dom_len(self.mapped());
        }
        self.adj.len()
    }

    /// The neighbor vector of vertex `v`: each pair is an edge of the
    /// view, and every edge of the view appears as a pair.
    pub fn neighbors(&self, v: u64) -> (r: &Vec<(u64, u64)>)
        requires
            self.well_formed(),
            self@.dom().contains(v),
        ensures
            distinct_keys(r@),
            forall|j: int| 0 <= j < r@.len() ==> self@[v].dom().contains((#[trigger] r@[j]).0)
                && self@[v][r@[j].0] == r@[j].1,
            forall|k: u64| #[trigger] self@[v].dom().contains(k) ==> exists|j: int|
                0 <= j < r@.len() && (#[trigger] r@[j]).0 == k,
    {
        proof {
            lemma_assoc_dom(self.mapped());
        }
        let idx = match self.find(v) {
            Some(i) => i,
            None => {
                proof {
                    assert forall|i: int| 0 <= i < self.mapped().len() implies (
                    #[trigger] self.mapped()[i]).0 != v by {
                        assert(self.adj@[i].0 != v);
                    }
                    assert(false);
                }
                0
            },
        };
        let r = &self.adj[idx].1;
        proof {
            assert(distinct_keys(self.mapped()));
            lemma_assoc_index(self.mapped(), idx as int);
            assert(self@[v] == assoc_map(r@));
            lemma_assoc_dom(r@);
            assert forall|j: int| 0 <= j < r@.len() implies self@[v].dom().contains(
                (#[trigger] r@[j]).0,
            ) && self@[v][r@[j].0] == r@[j].1 by {
                lemma_assoc_index(r@, j);
            }
        }
        r
    }

    /// Ensure vertex `v` is present, with no neighbors if it was absent.
    pub fn add_vertex(&mut self, v: u64)
        requires
            old(self).well_formed(),
        ensures
            final(self).well_formed(),
            final(self)@ == if old(self)@.dom().contains(v) {
                old(self)@
            } else {
                old(self)@.insert(v, Map::<u64, u64>::empty())
            },
    {
        proof {
            lemma_assoc_dom(self.mapped());
        }
        let ghost g0 = self@;
        match self.find(v) {
            Some(i) => {
                proof {
                    assert(self.mapped()[i as int].0 == v);
                    assert(g0.dom().contains(v));
                }
            },
            None => {
                proof {
                    assert forall|j: int| 0 <= j < self.mapped().len() implies (
                    #[trigger] self.mapped()[j]).0 != v by {
                        assert(self.adj@[j].0 != v);
                    }
                    assert(!g0.dom().contains(v));
                }
                let ghost old_adj = self.adj@;
                self.adj.push((v, Vec::new()));
                proof {
                    assert(self.adj@[self.adj@.len() - 1].1@ =~= Seq::<(u64, u64)>::empty());
                    assert(self.mapped() =~= old_adj.map_values(
                        |p: (u64, Vec<(u64, u64)>)| (p.0, assoc_map(p.1@)),
                    ).push((v, Map::<u64, u64>::empty())));
                    lemma_assoc_push(
                        old_adj.map_values(|p: (u64, Vec<(u64, u64)>)| (p.0, assoc_map(p.1@))),
                        v,
                        Map::<u64, u64>::empty(),
                    );
                    assert(assoc_map(Seq::<(u64, u64)>::empty()) =~= Map::<u64, u64>::empty());
                }
            },
        }
    }

    /// Record the directed edge `from -> to` with weight `weight`,
    /// creating either endpoint's entry as needed.
    pub fn add_edge(&mut self, from: u64, to: u64, weight: u64)
        requires
            old(self).well_formed(),
        ensures
            final(self).well_formed(),
            final(self)@ == with_edge(old(self)@, from, to, weight),
    {
        proof {
            lemma_assoc_dom(self.mapped());
        }
        let ghost g0 = self@;
        match self.find(from) {
            Some(i) => {
                proof {
                    assert(distinct_keys(self.mapped()));
                    lemma_assoc_index(self.mapped(), i as int);
                    lemma_assoc_dom(self.adj@[i as int].1@);
                }
                let ghost old_adj = self.adj@;
                let ghost old_nbrs = self.adj@[i as int].1@;
                let entry = &mut self.adj[i];
                Self::put_neighbor(&mut entry.1, to, weight);
                proof {
                    assert(self.adj@ =~= old_adj.update(
                        i as int,
                        (old_adj[i as int].0, self.adj@[i as int].1),
                    ));
                    assert(self.mapped() =~= old_adj.map_values(
                        |p: (u64, Vec<(u64, u64)>)| (p.0, assoc_map(p.1@)),
                    ).update(i as int, (from, assoc_map(old_nbrs).insert(to, weight))));
                    lemma_assoc_update(
                        old_adj.map_values(|p: (u64, Vec<(u64, u64)>)| (p.0, assoc_map(p.1@))),
                        i as int,
                        assoc_map(old_nbrs).insert(to, weight),
                    );
                    assert(self@ == g0.insert(from, g0[from].insert(to, weight)));
                }
            },
            None => {
                proof {
                    assert forall|j: int| 0 <= j < self.mapped().len() implies (
                    #[trigger] self.mapped()[j]).0 != from by {
                        assert(self.adj@[j].0 != from);
                    }
                    assert(!g0.dom().contains(from));
                }
                let ghost old_adj = self.adj@;
                let mut nbrs: Vec<(u64, u64)> = Vec::new();
                nbrs.push((to, weight));
                self.adj.push((from, nbrs));
                proof {
                    assert(self.mapped() =~= old_adj.map_values(
                        |p: (u64, Vec<(u64, u64)>)| (p.0, assoc_map(p.1@)),
                    ).push((from, assoc_map(nbrs@))));
                    lemma_assoc_push(
                        old_adj.map_values(|p: (u64, Vec<(u64, u64)>)| (p.0, assoc_map(p.1@))),
                        from,
                        assoc_map(nbrs@),
                    );
                    assert(nbrs@.drop_last() =~= Seq::<(u64, u64)>::empty());
                    assert(assoc_map(Seq::<(u64, u64)>::empty()) == Map::<u64, u64>::empty());
                    assert(assoc_map(nbrs@) =~= Map::<u64, u64>::empty().insert(to, weight));
                    assert(self@ == g0.insert(from, Map::<u64, u64>::empty().insert(to, weight)));
                }
            },
        }
        let ghost g1 = self@;
        proof {
            lemma_assoc_dom(self.mapped());
        }
        match self.find(to) {
            Some(i) => {
                proof {
                    assert(self.mapped()[i as int].0 == to);
                    assert(g1.dom().contains(to));
                    assert(self@ == with_edge(g0, from, to, weight));
                }
            },
            None => {
                proof {
                    assert forall|j: int| 0 <= j < self.mapped().len() implies (
                    #[trigger] self.mapped()[j]).0 != to by {
                        assert(self.adj@[j].0 != to);
                    }
                    assert(!g1.dom().contains(to));
                }
                let ghost old_adj = self.adj@;
                self.adj.push((to, Vec::new()));
                proof {
                    assert(self.adj@[self.adj@.len() - 1].1@ =~= Seq::<(u64, u64)>::empty());
                    assert(self.mapped() =~= old_adj.map_values(
                        |p: (u64, Vec<(u64, u64)>)| (p.0, assoc_map(p.1@)),
                    ).push((to, Map::<u64, u64>::empty())));
                    lemma_assoc_push(
                        old_adj.map_values(|p: (u64, Vec<(u64, u64)>)| (p.0, assoc_map(p.1@))),
                        to,
                        Map::<u64, u64>::empty(),
                    );
                    assert(assoc_map(Seq::<(u64, u64)>::empty()) =~= Map::<u64, u64>::empty());
                    assert(self@ == with_edge(g0, from, to, weight));
                }
            },
        }
    }

    /// Insert or update `to -> weight` in one neighbor vector.
    fn put_neighbor(nbrs: &mut Vec<(u64, u64)>, to: u64, weight: u64)
        requires
            distinct_keys(old(nbrs)@),
        ensures
            distinct_keys(final(nbrs)@),
            assoc_map(final(nbrs)@) == assoc_map(old(nbrs)@).insert(to, weight),
    {
        let mut i: usize = 0;
        while i < nbrs.len()
            invariant
                i <= nbrs@.len(),
                nbrs@ == old(nbrs)@,
                distinct_keys(nbrs@),
                forall|j: int| 0 <= j < i ==> (#[trigger] nbrs@[j]).0 != to,
            decreases nbrs@.len() - i,
        {
            if nbrs[i].0 == to {
                proof {
                    lemma_assoc_update(nbrs@, i as int, weight);
                    assert(nbrs@.update(i as int, (nbrs@[i as int].0, weight)) =~= nbrs@.update(
                        i as int,
                        (to, weight),
                    ));
                }
                nbrs.set(i, (to, weight));
                return ;
            }
            i += 1;
        }
        proof {
            lemma_assoc_push(nbrs@, to, weight);
            assert(distinct_keys(nbrs@.push((to, weight))));
        }
        nbrs.push((to, weight));
    }
}

/// What a distance table records of one vertex: nothing (the start,
/// distance zero by definition) or the predecessor on a best path found
/// so far together with the distance along it.
pub type TableEntry = Option<(u64, u64)>;

/// A distance/predecessor table, keyed by vertex.
pub struct DistTable {
    entries: Vec<(u64, TableEntry)>,
}

/// The distance an entry records: the start's is zero.
pub open spec fn entry_cost(e: TableEntry) -> int {
    match e {
        None => 0,
        Some(pd) => pd.1 as int,
    }
}

/// The total of the distances a table records, the engine's termination
/// potential.
pub open spec fn seq_cost(s: Seq<(u64, TableEntry)>) -> int
    decreases s.len(),
{
    if s.len() == 0 {
        0
    } else {
        seq_cost(s.drop_last()) + entry_cost(s.last().1)
    }
}

/// The total is non-negative.
pub proof fn lemma_seq_cost_nonneg(s: Seq<(u64, TableEntry)>)
    ensures
        seq_cost(s) >= 0,
    decreases s.len(),
{
    if s.len() > 0 {
        lemma_seq_cost_nonneg(s.drop_last());
    }
}

/// Updating one pair moves the total by the difference of its costs.
pub proof fn lemma_seq_cost_update(s: Seq<(u64, TableEntry)>, i: int, v: TableEntry)
    requires
        0 <= i < s.len(),
    ensures
        seq_cost(s.update(i, (s[i].0, v))) == seq_cost(s) - entry_cost(s[i].1) + entry_cost(v),
    decreases s.len(),
{
    let t = s.update(i, (s[i].0, v));
    if i == s.len() - 1 {
        assert(t.drop_last() =~= s.drop_last());
    } else {
        lemma_seq_cost_update(s.drop_last(), i, v);
        assert(t.drop_last() =~= s.drop_last().update(i, (s[i].0, v)));
        assert(t.last() == s.last());
    }
}

impl View for DistTable {
    type V = Map<u64, TableEntry>;

    closed spec fn view(&self) -> Map<u64, TableEntry> {
        assoc_map(self.entries@)
    }
}

impl DistTable {
    /// The structural invariant: keys are distinct.
    pub closed spec fn well_formed(self) -> bool {
        distinct_keys(self.entries@)
    }

    /// How many vertices the table holds.
    pub closed spec fn key_count(self) -> int {
        self.entries@.len() as int
    }

    /// The table's termination potential.
    pub closed spec fn cost(self) -> int {
        seq_cost(self.entries@)
    }

    /// The key sequence, for cardinality arguments.
    pub closed spec fn key_seq(self) -> Seq<u64> {
        self.entries@.map_values(|p: (u64, TableEntry)| p.0)
    }

    /// An empty table.
    pub fn new() -> (t: DistTable)
        ensures
            t.well_formed(),
            t@ == Map::<u64, TableEntry>::empty(),
            t.key_count() == 0,
            t.cost() == 0,
    {
        let t = DistTable { entries: Vec::new() };
        proof {
            assert(t.entries@ =~= Seq::<(u64, TableEntry)>::empty());
        }
        t
    }

    /// The potential is never negative.
    pub proof fn lemma_cost_nonneg(self)
        ensures
            self.cost() >= 0,
    {
        lemma_seq_cost_nonneg(self.entries@);
    }

    /// The domain matches the key count and is finite.
    pub proof fn lemma_dom(self)
        requires
            self.well_formed(),
        ensures
            self@.dom().finite(),
            self@.dom().len() == self.key_count(),
            self.key_seq().no_duplicates(),
            self.key_seq().len() == self.key_count(),
            forall|v: u64| #[trigger] self@.dom().contains(v) <==> self.key_seq().contains(v),
    {
        lemma_assoc_dom_len(self.entries@);
        lemma_assoc_dom(self.entries@);
        assert forall|v: u64| #[trigger] self@.dom().contains(v) implies self.key_seq().contains(
            v,
        ) by {
            let i = choose|i: int| 0 <= i < self.entries@.len() && (#[trigger] self.entries@[i]).0
                == v;
            assert(self.key_seq()[i] == v);
        }
        assert forall|v: u64| self.key_seq().contains(v) implies #[trigger] self@.dom().contains(
            v,
        ) by {
            let i = choose|i: int| 0 <= i < self.key_seq().len() && self.key_seq()[i] == v;
            assert((self.entries@[i]).0 == v);
        }
    }

    /// Index of the entry of vertex `v`, if present.
    fn find(&self, v: u64) -> (r: Option<usize>)
        ensures
            r matches Some(i) ==> i < self.entries@.len() && self.entries@[i as int].0 == v,
            r is None ==> forall|i: int| 0 <= i < self.entries@.len() ==> (
            #[trigger] self.entries@[i]).0 != v,
    {
        let mut i: usize = 0;
        while i < self.entries.len()
            invariant
                i <= self.entries@.len(),
                forall|j: int| 0 <= j < i ==> (#[trigger] self.entries@[j]).0 != v,
            decreases self.entries@.len() - i,
        {
            if self.entries[i].0 == v {
                return Some(i);
            }
            i += 1;
        }
        None
    }

    /// Read vertex `v`'s entry: the recorded entry, or nothing when `v`
    /// is not in the table.
    pub fn lookup(&self, v: u64) -> (r: Option<TableEntry>)
        requires
            self.well_formed(),
        ensures
            r == if self@.dom().contains(v) {
                Some(self@[v])
            } else {
                None::<TableEntry>
            },
    {
        proof {
            lemma_assoc_dom(self.entries@);
        }
        match self.find(v) {
            Some(i) => {
                proof {
                    lemma_assoc_index(self.entries@, i as int);
                }
                Some(self.entries[i].1)
            },
            None => None,
        }
    }

    /// Record entry `e` for vertex `v`, inserting or replacing.
    pub fn set(&mut self, v: u64, e: TableEntry)
        requires
            old(self).well_formed(),
        ensures
            final(self).well_formed(),
            final(self)@ == old(self)@.insert(v, e),
            old(self)@.dom().contains(v) ==> {
                &&& final(self).key_count() == old(self).key_count()
                &&& final(self).cost() == old(self).cost() - entry_cost(old(self)@[v])
                    + entry_cost(e)
                &&& final(self).key_seq() == old(self).key_seq()
            },
            !old(self)@.dom().contains(v) ==> {
                &&& final(self).key_count() == old(self).key_count() + 1
                &&& final(self).cost() == old(self).cost() + entry_cost(e)
                &&& final(self).key_seq() == old(self).key_seq().push(v)
            },
    {
        proof {
            lemma_assoc_dom(self.entries@);
        }
        match self.find(v) {
            Some(i) => {
                proof {
                    lemma_assoc_index(self.entries@, i as int);
                    lemma_assoc_update(self.entries@, i as int, e);
                    lemma_seq_cost_update(self.entries@, i as int, e);
                    assert(self.entries@.update(i as int, (v, e)).map_values(
                        |p: (u64, TableEntry)| p.0,
                    ) =~= self.key_seq());
                }
                self.entries.set(i, (v, e));
            },
            None => {
                proof {
                    lemma_assoc_push(self.entries@, v, e);
                    assert(distinct_keys(self.entries@.push((v, e))));
                    assert(self.entries@.push((v, e)).drop_last() =~= self.entries@);
                    assert(self.entries@.push((v, e)).map_values(|p: (u64, TableEntry)| p.0)
                        =~= self.key_seq().push(v));
                }
                self.entries.push((v, e));
            },
        }
    }

    /// A copy of the table as plain pairs, one per vertex.
    pub fn items(&self) -> (r: Vec<(u64, TableEntry)>)
        requires
            self.well_formed(),
        ensures
            distinct_keys(r@),
            assoc_map(r@) == self@,
            r@.len() == self.key_count(),
    {
        let mut r: Vec<(u64, TableEntry)> = Vec::new();
        let mut i: usize = 0;
        while i < self.entries.len()
            invariant
                i <= self.entries@.len(),
                r@ == self.entries@.subrange(0, i as int),
            decreases self.entries@.len() - i,
        {
            r.push(self.entries[i]);
            proof {
                assert(r@ =~= self.entries@.subrange(0, i + 1));
            }
            i += 1;
        }
        proof {
            assert(r@ =~= self.entries@);
        }
        r
    }
}

} // verus!
