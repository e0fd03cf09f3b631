//! The graph store: nodes, edges sorted by source, and per-node offsets into
//! the edge array.
use vstd::prelude::*;

verus! {

/// A directed, weighted edge.
#[derive(Debug, Clone, Copy, PartialEq, Eq, Structural)]
pub struct Edge {
    pub src: usize,
    pub tgt: usize,
    pub dist: usize,
}

/// A graph node. Latitude and longitude are kept as the decimal literals the
/// node was declared with; the library never computes with them.
#[derive(Debug)]
pub struct Node {
    pub id: usize,
    pub lat: Vec<u8>,
    pub lon: Vec<u8>,
}

/// A directed graph whose edges are grouped by ascending source node.
///
/// `offsets[v] .. offsets[v + 1]` is the range of `edges` that leave node `v`.
#[derive(Debug)]
pub struct Graph {
    pub nodes: Vec<Node>,
    pub edges: Vec<Edge>,
    pub offsets: Vec<usize>,
    pub num_nodes: usize,
    pub num_edges: usize,
}

/// The index of the first edge at or after `from` that leaves node `v` or a
/// later node; the number of edges if there is none.
pub open spec fn first_edge_from(edges: Seq<Edge>, v: int, from: int) -> int
    decreases edges.len() - from,
{
    if from < 0 || from >= edges.len() {
        edges.len() as int
    } else if edges[from].src >= v {
        from
    } else {
        first_edge_from(edges, v, from + 1)
    }
}

/// The offset of node `v` in a graph of `num_nodes` nodes: the index of the
/// first edge that leaves `v` or a later node, and the number of edges for
/// `v == num_nodes` or where no such edge exists.
pub open spec fn offset_of(edges: Seq<Edge>, num_nodes: int, v: int) -> int {
    if v >= num_nodes {
        edges.len() as int
    } else {
        first_edge_from(edges, v, 0)
    }
}

/// The edges are listed by ascending source node.
pub open spec fn sorted_by_source(edges: Seq<Edge>) -> bool {
    forall|i: int, j: int| 0 <= i <= j < edges.len() ==> edges[i].src <= edges[j].src
}

/// Every edge leaves one of `num_nodes` nodes.
pub open spec fn sources_below(edges: Seq<Edge>, num_nodes: int) -> bool {
    forall|i: int| 0 <= i < edges.len() ==> (#[trigger] edges[i]).src < num_nodes
}

/// Every edge ends at one of `num_nodes` nodes.
pub open spec fn targets_below(edges: Seq<Edge>, num_nodes: int) -> bool {
    forall|i: int| 0 <= i < edges.len() ==> (#[trigger] edges[i]).tgt < num_nodes
}

/// What `first_edge_from` finds: no edge before it, from `from` on, leaves
/// `v` or a later node, and the edge at it does.
pub proof fn lemma_first_edge_from(edges: Seq<Edge>, v: int, from: int)
    requires
        0 <= from <= edges.len(),
    ensures
        from <= first_edge_from(edges, v, from) <= edges.len(),
        forall|k: int| from <= k < first_edge_from(edges, v, from)
            ==> (#[trigger] edges[k]).src < v,
        first_edge_from(edges, v, from) < edges.len() ==> edges[first_edge_from(
            edges,
            v,
            from,
        )].src >= v,
    decreases edges.len() - from,
{
    if from < edges.len() && edges[from].src < v {
        lemma_first_edge_from(edges, v, from + 1);
    }
}

/// The offsets never decrease from one node to the next, and none exceeds the
/// number of edges, in whatever order the edges are listed.
pub proof fn lemma_offsets_never_decrease(edges: Seq<Edge>, num_nodes: int, u: int, v: int)
    requires
        0 <= u <= v,
    ensures
        0 <= offset_of(edges, num_nodes, u) <= offset_of(edges, num_nodes, v) <= edges.len(),
{
    lemma_first_edge_from(edges, u, 0);
    lemma_first_edge_from(edges, v, 0);
}

/// Where the edges are listed by ascending source, the edges between the
/// offset of a node and that of the next are exactly those that leave it.
pub proof fn lemma_offsets_group_sorted_edges(edges: Seq<Edge>, num_nodes: int, v: int, i: int)
    requires
        sorted_by_source(edges),
        sources_below(edges, num_nodes),
        0 <= v < num_nodes,
        0 <= i < edges.len(),
    ensures
        offset_of(edges, num_nodes, v) <= i < offset_of(edges, num_nodes, v + 1) <==> edges[i].src
            == v,
{
    lemma_first_edge_from(edges, v, 0);
    lemma_first_edge_from(edges, v + 1, 0);
    let lo = first_edge_from(edges, v, 0);
    let hi = first_edge_from(edges, v + 1, 0);
    if lo < edges.len() {
        assert(edges[lo].src >= v);
    }
    if hi < edges.len() {
        assert(edges[hi].src >= v + 1);
    }
    assert(edges[i].src < num_nodes);
}

impl Graph {
    /// The counts agree with the lengths of the three tables.
    pub open spec fn sizes_agree(&self) -> bool {
        &&& self.nodes@.len() == self.num_nodes
        &&& self.edges@.len() == self.num_edges
        &&& self.offsets@.len() == self.num_nodes + 1
    }

    /// The offsets start at zero, end at the edge count and never decrease.
    pub open spec fn offsets_monotone(&self) -> bool {
        &&& self.offsets@[0] == 0
        &&& self.offsets@[self.num_nodes as int] == self.num_edges
        &&& forall|u: int, v: int|
            0 <= u <= v <= self.num_nodes ==> self.offsets@[u] <= self.offsets@[v]
    }

    /// The index `i` lies in the range of node `v`.
    pub open spec fn in_range_of(&self, v: int, i: int) -> bool {
        self.offsets@[v] <= i < self.offsets@[v + 1]
    }

    /// Every edge in the range of node `v` leaves `v`, and every edge ends at a node.
    pub open spec fn edges_grouped(&self) -> bool {
        &&& forall|v: int, i: int|
            0 <= v < self.num_nodes && #[trigger] self.in_range_of(v, i) ==> self.edges@[i].src == v
        &&& forall|i: int| 0 <= i < self.num_edges
            ==> (#[trigger] self.edges@[i]).tgt < self.num_nodes
    }

    /// Well-formedness of the store: the invariant every algorithm relies on.
    pub open spec fn wf(&self) -> bool {
        &&& self.sizes_agree()
        &&& self.offsets_monotone()
        &&& self.edges_grouped()
        &&& forall|i: int| 0 <= i < self.num_nodes ==> (#[trigger] self.nodes@[i]).id == i
    }

    /// The offsets are those that the list of edges determines.
    pub open spec fn offsets_follow_edges(&self) -> bool {
        forall|v: int|
            0 <= v <= self.num_nodes ==> #[trigger] self.offsets@[v] == offset_of(
                self.edges@,
                self.num_nodes as int,
                v,
            )
    }

    /// A graph whose offsets follow its edges is well-formed as soon as the
    /// edges are listed by ascending source and join existing nodes.
    pub proof fn lemma_sorted_graph_is_well_formed(&self)
        requires
            self.sizes_agree(),
            self.offsets_follow_edges(),
            sorted_by_source(self.edges@),
            sources_below(self.edges@, self.num_nodes as int),
            targets_below(self.edges@, self.num_nodes as int),
            forall|i: int| 0 <= i < self.num_nodes ==> (#[trigger] self.nodes@[i]).id == i,
        ensures
            self.wf(),
    {
        let n = self.num_nodes as int;
        lemma_first_edge_from(self.edges@, 0, 0);
        if self.num_edges > 0 {
            assert(self.edges@[0].src < n);
        }
        assert forall|u: int, v: int| 0 <= u <= v <= n implies self.offsets@[u]
            <= self.offsets@[v] by {
            lemma_offsets_never_decrease(self.edges@, n, u, v);
        }
        assert forall|v: int, i: int| 0 <= v < n && #[trigger] self.in_range_of(v, i)
            implies self.edges@[i].src
            == v by {
            lemma_offsets_never_decrease(self.edges@, n, v + 1, n);
            assert(self.offsets@[v + 1] == offset_of(self.edges@, n, v + 1));
            lemma_offsets_group_sorted_edges(self.edges@, n, v, i);
        }
    }

    /// The number of edges that leave `node_id`.
    pub open spec fn degree(&self, node_id: int) -> int {
        self.offsets@[node_id + 1] - self.offsets@[node_id]
    }

    /// In a well-formed graph an edge lies in the range of its own source, so
    /// the range of a node holds exactly the edges that leave it.
    pub proof fn lemma_edge_in_range_of_source(&self, i: int)
        requires
            self.wf(),
            0 <= i < self.num_edges,
        ensures
            self.edges@[i].src < self.num_nodes,
            self.offsets@[self.edges@[i].src as int] <= i < self.offsets@[self.edges@[i].src + 1],
    {
        let v = self.lemma_range_of_index(i, self.num_nodes as int);
        assert(self.in_range_of(v, i));
    }

    /// Some node below `bound` has `i` in its range, provided `i` lies below
    /// the offset of `bound`.
    proof fn lemma_range_of_index(&self, i: int, bound: int) -> (v: int)
        requires
            self.sizes_agree(),
            self.offsets_monotone(),
            0 <= bound <= self.num_nodes,
            0 <= i < self.offsets@[bound],
        ensures
            0 <= v < bound,
            self.offsets@[v] <= i < self.offsets@[v + 1],
        decreases bound,
    {
        if bound == 0 {
            0
        } else if self.offsets@[bound - 1] <= i {
            bound - 1
        } else {
            self.lemma_range_of_index(i, bound - 1)
        }
    }

    /// Get the number of outgoing edges of the node with id `node_id`.
    pub fn get_degree(&self, node_id: usize) -> (degree: usize)
        requires
            self.wf(),
            node_id < self.num_nodes,
        ensures
            degree == self.degree(node_id as int),
    {
        self.offsets[node_id + 1] - self.offsets[node_id]
    }

    /// Computes the offsets of `num_nodes` nodes from the list of edges in one
    /// pass. Where a node has no edge, its offset is the running edge count.
    pub fn compute_offsets(edges: &Vec<Edge>, num_nodes: usize) -> (offsets: Vec<usize>)
        requires
            num_nodes < usize::MAX,
        ensures
            offsets@.len() == num_nodes + 1,
            forall|v: int|
                0 <= v <= num_nodes ==> #[trigger] offsets@[v] == offset_of(
                    edges@,
                    num_nodes as int,
                    v,
                ),
    {
        let m: usize = edges.len();
        let mut offsets: Vec<usize> = Vec::new();
        let mut filled: usize = 0;
        let mut i: usize = 0;
        while i < m
            invariant
                m == edges@.len(),
                i <= m,
                filled <= num_nodes < usize::MAX,
                offsets@.len() == filled,
                forall|v: int|
                    0 <= v < filled ==> #[trigger] offsets@[v] == first_edge_from(edges@, v, 0),
                forall|k: int| 0 <= k < i && filled < num_nodes
                    ==> (#[trigger] edges@[k]).src < filled,
            decreases m - i,
        {
            let src: usize = edges[i].src;
            while filled < num_nodes && filled <= src
                invariant
                    m == edges@.len(),
                    i < m,
                    src == edges@[i as int].src,
                    filled <= num_nodes < usize::MAX,
                    offsets@.len() == filled,
                    forall|v: int|
                        0 <= v < filled ==> #[trigger] offsets@[v] == first_edge_from(edges@, v, 0),
                    forall|k: int|
                        0 <= k < i && filled < num_nodes ==> (#[trigger] edges@[k]).src < filled,
                decreases num_nodes - filled,
            {
                proof {
                    lemma_first_edge_from(edges@, filled as int, 0);
                    let found = first_edge_from(edges@, filled as int, 0);
                    if found < i {
                        assert(edges@[found].src < filled);
                    }
                }
                offsets.push(i);
                filled += 1;
            }
            i += 1;
        }
        while filled <= num_nodes
            invariant
                m == edges@.len(),
                filled <= num_nodes + 1,
                num_nodes < usize::MAX,
                offsets@.len() == filled,
                forall|v: int|
                    0 <= v < filled ==> #[trigger] offsets@[v] == offset_of(
                        edges@,
                        num_nodes as int,
                        v,
                    ),
                forall|k: int| 0 <= k < m && filled < num_nodes
                    ==> (#[trigger] edges@[k]).src < filled,
            decreases num_nodes + 1 - filled,
        {
            proof {
                if filled < num_nodes {
                    lemma_first_edge_from(edges@, filled as int, 0);
                    let found = first_edge_from(edges@, filled as int, 0);
                    if found < m {
                        assert(edges@[found].src < filled);
                    }
                }
            }
            offsets.push(m);
            filled += 1;
        }
        offsets
    }

    /// Decides whether the store is well-formed.
    pub fn is_well_formed(&self) -> (ok: bool)
        ensures
            ok == self.wf(),
    {
        let n: usize = self.num_nodes;
        let m: usize = self.num_edges;
        let table_len: usize = self.offsets.len();
        if n == usize::MAX || self.nodes.len() != n || self.edges.len() != m || table_len != n + 1 {
            return false;
        }
        if self.offsets[0] != 0 || self.offsets[n] != m {
            return false;
        }
        let mut v: usize = 0;
        while v < n
            invariant
                self.sizes_agree(),
                n == self.num_nodes,
                m == self.num_edges,
                v <= n,
                self.offsets@[0] == 0,
                self.offsets@[n as int] == m,
                forall|a: int, b: int| 0 <= a <= b <= v ==> self.offsets@[a] <= self.offsets@[b],
                self.offsets@[v as int] <= m,
                forall|a: int, i: int|
                    0 <= a < v && #[trigger] self.in_range_of(a, i) ==> self.edges@[i].src == a,
                forall|a: int| 0 <= a < v ==> (#[trigger] self.nodes@[a]).id == a,
            decreases n - v,
        {
            let lo: usize = self.offsets[v];
            let hi: usize = self.offsets[v + 1];
            if hi < lo || hi > m || self.nodes[v].id != v {
                proof {
                    if hi > m {
                        assert(self.offsets@[v + 1] > self.offsets@[n as int]);
                    }
                }
                return false;
            }
            let mut i: usize = lo;
            while i < hi
                invariant
                    self.sizes_agree(),
                    m == self.num_edges,
                    v < self.num_nodes,
                    lo == self.offsets@[v as int],
                    hi == self.offsets@[v + 1],
                    lo <= i <= hi <= m,
                    forall|k: int| lo <= k < i ==> (#[trigger] self.edges@[k]).src == v,
                decreases hi - i,
            {
                if self.edges[i].src != v {
                    assert(self.in_range_of(v as int, i as int));
                    return false;
                }
                i += 1;
            }
            assert forall|a: int, b: int| 0 <= a <= b <= v + 1 implies self.offsets@[a]
                <= self.offsets@[b] by {
                if b == v + 1 && a <= v {
                    assert(self.offsets@[a] <= self.offsets@[v as int]);
                }
            }
            v += 1;
        }
        let mut i: usize = 0;
        while i < m
            invariant
                self.sizes_agree(),
                n == self.num_nodes,
                m == self.num_edges,
                i <= m,
                forall|k: int| 0 <= k < i ==> (#[trigger] self.edges@[k]).tgt < n,
            decreases m - i,
        {
            if self.edges[i].tgt >= n {
                return false;
            }
            i += 1;
        }
        true
    }
}

} // verus!
