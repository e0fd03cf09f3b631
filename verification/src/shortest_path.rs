//! Shortest paths from one node to all others.
use crate::binary_minheap::{lemma_below_is_finite, BinaryMinHeap};
use crate::graph::Graph;
use vstd::prelude::*;

verus! {

/// The distance of a node that no path reaches.
pub const INFINITE: usize = usize::MAX;

impl Graph {
    /// `path` lists the indices of the edges of a walk from `src` to `dst`.
    pub open spec fn is_path(&self, src: int, dst: int, path: Seq<int>) -> bool
        decreases path.len(),
    {
        if path.len() == 0 {
            src == dst
        } else {
            let e = path.last();
            &&& 0 <= e < self.edges@.len()
            &&& self.edges@[e].tgt == dst
            &&& self.is_path(src, self.edges@[e].src as int, path.drop_last())
        }
    }

    /// The sum of the weights of the edges of `path`.
    pub open spec fn path_weight(&self, path: Seq<int>) -> int
        decreases path.len(),
    {
        if path.len() == 0 {
            0
        } else {
            self.path_weight(path.drop_last()) + self.edges@[path.last()].dist
        }
    }

    /// Some path from `src` to `dst` weighs `weight`.
    #[verifier::opaque]
    pub open spec fn has_path_of_weight(&self, src: int, dst: int, weight: int) -> bool {
        exists|path: Seq<int>| #[trigger]
            self.is_path(src, dst, path) && self.path_weight(path) == weight
    }

    /// No path from `src` to `dst` weighs less than `bound`.
    pub open spec fn no_path_below(&self, src: int, dst: int, bound: int) -> bool {
        forall|path: Seq<int>| #[trigger]
            self.is_path(src, dst, path) ==> bound <= self.path_weight(path)
    }

    /// `distance` is the weight of a lightest path from `src` to `dst`.
    pub open spec fn is_distance(&self, src: int, dst: int, distance: int) -> bool {
        self.has_path_of_weight(src, dst, distance) && self.no_path_below(src, dst, distance)
    }

    /// `distances` holds, for every node, the weight of a lightest path from
    /// `src` to it where that weight is below `INFINITE`, and `INFINITE` where
    /// no path is that light, in particular where there is no path at all.
    pub open spec fn is_distance_table(&self, src: int, distances: Seq<usize>) -> bool {
        &&& distances.len() == self.num_nodes
        &&& forall|v: int|
            0 <= v < self.num_nodes ==> if (#[trigger] distances[v]) < INFINITE {
                self.is_distance(src, v, distances[v] as int)
            } else {
                self.no_path_below(src, v, INFINITE as int)
            }
    }

    /// `distances` holds, for every node, the weight of a lightest path to it
    /// from any of `roots` where that weight is below `INFINITE`, and
    /// `INFINITE` where no path from a root is that light.
    pub open spec fn is_root_distance_table(&self, roots: Seq<usize>, distances: Seq<usize>) -> bool {
        &&& distances.len() == self.num_nodes
        &&& forall|v: int, i: int|
            0 <= v < self.num_nodes && 0 <= i < roots.len() ==> #[trigger] self.no_path_below(
                roots[i] as int,
                v,
                distances[v] as int,
            )
        &&& forall|v: int|
            0 <= v < self.num_nodes && (#[trigger] distances[v]) < INFINITE ==> exists|i: int|
                0 <= i < roots.len() && #[trigger] self.has_path_of_weight(
                    roots[i] as int,
                    v,
                    distances[v] as int,
                )
    }

    /// Along the edge `e` the distance grows by no more than the weight.
    pub open spec fn relaxed(&self, distances: Seq<usize>, e: int) -> bool {
        distances[self.edges@[e].tgt as int] <= distances[self.edges@[e].src as int]
            + self.edges@[e].dist
    }

    /// Where the source has distance zero and every edge that leaves a node
    /// of finite distance is relaxed, no path is lighter than the distance of
    /// its end.
    proof fn lemma_relaxed_bounds_paths(
        &self,
        src: int,
        distances: Seq<usize>,
        dst: int,
        path: Seq<int>,
    )
        requires
            self.wf(),
            0 <= src < self.num_nodes,
            distances.len() == self.num_nodes,
            distances[src] == 0,
            forall|e: int|
                0 <= e < self.num_edges && distances[self.edges@[e].src as int] < INFINITE
                    ==> #[trigger] self.relaxed(distances, e),
            self.is_path(src, dst, path),
        ensures
            0 <= dst < self.num_nodes,
            distances[dst] <= self.path_weight(path),
        decreases path.len(),
    {
        if path.len() > 0 {
            let e = path.last();
            let mid = self.edges@[e].src as int;
            self.lemma_relaxed_bounds_paths(src, distances, mid, path.drop_last());
            if distances[mid] < INFINITE {
                assert(self.relaxed(distances, e));
            }
        }
    }

    /// The state of the search between two steps: the distances found so
    /// far are weights of paths, the nodes with a finite distance are queued
    /// or settled, and no settled node is farther than a node that is not.
    spec fn searching(
        &self,
        src: int,
        distances: Seq<usize>,
        queued: Set<usize>,
        settled: Set<usize>,
    ) -> bool {
        &&& 0 <= src < self.num_nodes
        &&& distances.len() == self.num_nodes
        &&& distances[src] == 0
        &&& settled.finite()
        &&& forall|v: usize| #[trigger] settled.contains(v) ==> v < self.num_nodes
        &&& forall|v: usize| #[trigger]
            queued.contains(v) ==> v < self.num_nodes && !settled.contains(v) && distances[v as int]
                < INFINITE
        &&& forall|v: usize|
            v < self.num_nodes && #[trigger] distances[v as int] < INFINITE ==> queued.contains(v)
                || settled.contains(v)
        &&& forall|v: int|
            0 <= v < self.num_nodes && #[trigger] distances[v] < INFINITE
                ==> self.has_path_of_weight(src, v, distances[v] as int)
        &&& forall|s: usize, v: usize|
            #![trigger settled.contains(s), distances[v as int]]
            settled.contains(s) && v < self.num_nodes && !settled.contains(v)
                ==> distances[s as int]
                <= distances[v as int]
    }

    /// Every edge that leaves a settled node is relaxed, but for the edges of
    /// `u` from index `from` on.
    spec fn scanned(&self, distances: Seq<usize>, settled: Set<usize>, u: usize, from: int) -> bool {
        forall|e: int|
            0 <= e < self.num_edges && settled.contains(self.edges@[e].src) && !(self.edges@[e].src
                == u && e >= from) ==> #[trigger] self.relaxed(distances, e)
    }

    /// Every edge that leaves a settled node is relaxed.
    spec fn settled_relaxed(&self, distances: Seq<usize>, settled: Set<usize>) -> bool {
        forall|e: int|
            0 <= e < self.num_edges && settled.contains(self.edges@[e].src)
                ==> #[trigger] self.relaxed(distances, e)
    }

    /// The node `u` is the farthest of the settled nodes, and at a finite
    /// distance.
    spec fn farthest_settled(&self, distances: Seq<usize>, settled: Set<usize>, u: usize) -> bool {
        &&& u < self.num_nodes
        &&& settled.contains(u)
        &&& distances[u as int] < INFINITE
        &&& forall|s: usize| #[trigger] settled.contains(s)
            ==> distances[s as int] <= distances[u as int]
    }

    /// Settling a queued node of least distance keeps the state of the search.
    proof fn lemma_settle(
        &self,
        src: int,
        distances: Seq<usize>,
        queued: Set<usize>,
        settled: Set<usize>,
        u: usize,
    )
        requires
            self.wf(),
            self.searching(src, distances, queued, settled),
            queued.contains(u),
            forall|v: usize| #[trigger] queued.contains(v)
                ==> distances[u as int] <= distances[v as int],
            self.settled_relaxed(distances, settled),
        ensures
            self.searching(src, distances, queued.remove(u), settled.insert(u)),
            self.farthest_settled(distances, settled.insert(u), u),
            self.scanned(distances, settled.insert(u), u, self.offsets@[u as int] as int),
            settled.insert(u).len() == settled.len() + 1,
            settled.insert(u).len() <= self.num_nodes,
    {
        let after = settled.insert(u);
        lemma_below_is_finite(self.num_nodes as nat);
        vstd::set_lib::lemma_len_subset(after, Set::new(|v: usize| v < self.num_nodes));
        assert forall|s: usize, v: usize|
            #![trigger after.contains(s), distances[v as int]]
            after.contains(s) && v < self.num_nodes && !after.contains(v)
                implies distances[s as int]
            <= distances[v as int] by {
            if s == u {
                if distances[v as int] < INFINITE {
                    assert(queued.contains(v) || settled.contains(v));
                }
            }
        }
        assert forall|e: int|
            0 <= e < self.num_edges && after.contains(self.edges@[e].src) && !(self.edges@[e].src
                == u && e >= self.offsets@[u as int]) implies #[trigger] self.relaxed(
            distances,
            e,
        ) by {
            if self.edges@[e].src == u {
                self.lemma_edge_in_range_of_source(e);
            }
        }
    }

    /// Lowering the distance of the end of an edge of `u` to the distance of
    /// `u` plus the weight keeps the state of the search, queues the end, and
    /// relaxes the edge.
    proof fn lemma_lower(
        &self,
        src: int,
        before: Seq<usize>,
        queued: Set<usize>,
        settled: Set<usize>,
        u: usize,
        i: int,
    )
        requires
            self.wf(),
            self.searching(src, before, queued, settled),
            self.farthest_settled(before, settled, u),
            self.scanned(before, settled, u, i),
            0 <= i < self.num_edges,
            self.edges@[i].src == u,
            before[u as int] + self.edges@[i].dist < before[self.edges@[i].tgt as int],
        ensures
            ({
                let tgt = self.edges@[i].tgt;
                let after = before.update(
                    tgt as int,
                    (before[u as int] + self.edges@[i].dist) as usize,
                );
                &&& !settled.contains(tgt)
                &&& tgt != u
                &&& self.searching(src, after, queued.insert(tgt), settled)
                &&& self.farthest_settled(after, settled, u)
                &&& self.scanned(after, settled, u, i + 1)
            }),
    {
        reveal(Graph::has_path_of_weight);
        let tgt = self.edges@[i].tgt;
        let dist = (before[u as int] + self.edges@[i].dist) as usize;
        let after = before.update(tgt as int, dist);
        if settled.contains(tgt) {
            assert(before[tgt as int] <= before[u as int]);
        }
        let path = choose|path: Seq<int>| #[trigger]
            self.is_path(src, u as int, path) && self.path_weight(path) == before[u as int];
        let longer = path.push(i);
        assert(longer.drop_last() =~= path);
        assert(self.is_path(src, tgt as int, longer));
        assert(self.path_weight(longer) == dist);
        assert forall|v: int|
            0 <= v < self.num_nodes && #[trigger] after[v] < INFINITE
                implies self.has_path_of_weight(
            src,
            v,
            after[v] as int,
        ) by {
            if v != tgt {
                assert(before[v] < INFINITE);
            }
        }
        assert forall|v: usize|
            v < self.num_nodes && #[trigger] after[v as int] < INFINITE implies queued.insert(
            tgt,
        ).contains(v) || settled.contains(v) by {
            if v != tgt {
                assert(before[v as int] < INFINITE);
            }
        }
        assert forall|s: usize, v: usize|
            #![trigger settled.contains(s), after[v as int]]
            settled.contains(s) && v < self.num_nodes && !settled.contains(v)
                implies after[s as int]
            <= after[v as int] by {
            assert(before[s as int] <= before[v as int]);
            assert(before[s as int] <= before[u as int]);
        }
        assert forall|e: int|
            0 <= e < self.num_edges && settled.contains(self.edges@[e].src) && !(self.edges@[e].src
                == u && e >= i + 1) implies #[trigger] self.relaxed(after, e) by {
            if e != i {
                assert(self.relaxed(before, e));
            }
        }
        assert(src != tgt) by {
            if src == tgt {
                assert(before[src] == 0);
            }
        }
    }

    /// An edge of `u` that is relaxed already can be passed over.
    proof fn lemma_pass(&self, distances: Seq<usize>, settled: Set<usize>, u: usize, i: int)
        requires
            self.scanned(distances, settled, u, i),
            0 <= i < self.num_edges,
            self.relaxed(distances, i),
        ensures
            self.scanned(distances, settled, u, i + 1),
    {
    }

    /// Once all edges in the range of `u` are passed, none of `u` is left.
    proof fn lemma_scanned_all(&self, distances: Seq<usize>, settled: Set<usize>, u: usize)
        requires
            self.wf(),
            u < self.num_nodes,
            self.scanned(distances, settled, u, self.offsets@[u + 1] as int),
        ensures
            self.settled_relaxed(distances, settled),
    {
        assert forall|e: int|
            0 <= e < self.num_edges && settled.contains(
                self.edges@[e].src,
            ) implies #[trigger] self.relaxed(distances, e) by {
            self.lemma_edge_in_range_of_source(e);
        }
    }

    /// When no node is queued any more, every edge that leaves a node of
    /// finite distance is relaxed.
    proof fn lemma_all_relaxed(&self, src: int, distances: Seq<usize>, settled: Set<usize>, e: int)
        requires
            self.wf(),
            self.searching(src, distances, Set::<usize>::empty(), settled),
            self.settled_relaxed(distances, settled),
            0 <= e < self.num_edges,
            distances[self.edges@[e].src as int] < INFINITE,
        ensures
            self.relaxed(distances, e),
    {
        self.lemma_edge_in_range_of_source(e);
        let s = self.edges@[e].src;
        assert(Set::<usize>::empty().contains(s) || settled.contains(s));
    }

    /// Distances that are weights of paths, zero at the source and relaxed
    /// along every edge that leaves a node of finite distance are the
    /// distances from the source.
    proof fn lemma_search_done(&self, src: int, distances: Seq<usize>)
        requires
            self.wf(),
            0 <= src < self.num_nodes,
            distances.len() == self.num_nodes,
            distances[src] == 0,
            forall|v: int|
                0 <= v < self.num_nodes && #[trigger] distances[v] < INFINITE
                    ==> self.has_path_of_weight(src, v, distances[v] as int),
            forall|e: int|
                0 <= e < self.num_edges && distances[self.edges@[e].src as int] < INFINITE
                    ==> #[trigger] self.relaxed(distances, e),
        ensures
            self.is_distance_table(src, distances),
    {
        assert forall|v: int| 0 <= v < self.num_nodes implies if (#[trigger] distances[v])
            < INFINITE {
            self.is_distance(src, v, distances[v] as int)
        } else {
            self.no_path_below(src, v, INFINITE as int)
        } by {
            assert forall|path: Seq<int>| #[trigger]
                self.is_path(src, v, path) implies distances[v] <= self.path_weight(path) by {
                self.lemma_relaxed_bounds_paths(src, distances, v, path);
            }
        }
    }

    /// Run an one-to-all Dijkstra from the source node with id `src_id`.
    ///
    /// A path whose weight does not fit below `INFINITE` counts as no path.
    pub fn run_dijkstra(&self, src_id: usize) -> (distances: Vec<usize>)
        requires
            self.wf(),
            src_id < self.num_nodes,
        ensures
            self.is_distance_table(src_id as int, distances@),
            distances@[src_id as int] == 0,
    {
        let n: usize = self.num_nodes;
        let mut distances: Vec<usize> = Vec::new();
        let mut k: usize = 0;
        while k < n
            invariant
                k <= n,
                distances@.len() == k,
                forall|v: int| 0 <= v < k ==> distances@[v] == INFINITE,
            decreases n - k,
        {
            distances.push(INFINITE);
            k += 1;
        }
        distances.set(src_id, 0);
        let mut pq = BinaryMinHeap::with_capacity(n);
        pq.push(src_id, &distances);
        let ghost mut settled: Set<usize> = Set::empty();
        proof {
            reveal(Graph::has_path_of_weight);
            assert(self.is_path(src_id as int, src_id as int, Seq::<int>::empty()));
            assert(self.path_weight(Seq::<int>::empty()) == 0);
            assert(self.searching(src_id as int, distances@, pq@, settled));
        }
        while !pq.is_empty()
            invariant
                self.wf(),
                n == self.num_nodes,
                pq.wf(),
                pq.capacity() == n,
                pq.ordered(distances@),
                self.searching(src_id as int, distances@, pq@, settled),
                self.settled_relaxed(distances@, settled),
                settled.len() <= n,
            decreases n - settled.len(),
        {
            let ghost queued = pq@;
            let u: usize = pq.pop(&distances);
            proof {
                self.lemma_settle(src_id as int, distances@, queued, settled, u);
                settled = settled.insert(u);
            }
            let lo: usize = self.offsets[u];
            let hi: usize = self.offsets[u + 1];
            let mut i: usize = lo;
            while i < hi
                invariant
                    self.wf(),
                    n == self.num_nodes,
                    u < n,
                    lo == self.offsets@[u as int],
                    hi == self.offsets@[u + 1],
                    lo <= i <= hi <= self.num_edges,
                    pq.wf(),
                    pq.capacity() == n,
                    pq.ordered(distances@),
                    self.searching(src_id as int, distances@, pq@, settled),
                    self.farthest_settled(distances@, settled, u),
                    self.scanned(distances@, settled, u, i as int),
                decreases hi - i,
            {
                let edge = self.edges[i];
                let tgt: usize = edge.tgt;
                let du: usize = distances[u];
                assert(self.in_range_of(u as int, i as int));
                if edge.dist <= usize::MAX - du && du + edge.dist < distances[tgt] {
                    let ghost before = distances@;
                    proof {
                        self.lemma_lower(src_id as int, before, pq@, settled, u, i as int);
                    }
                    distances.set(tgt, du + edge.dist);
                    if pq.contains(tgt) {
                        assert(pq.ordered(before) && crate::binary_minheap::lowered_at(
                            before,
                            distances@,
                            tgt,
                        ));
                        pq.decrease_key(tgt, &distances);
                        assert(pq@ =~= pq@.insert(tgt));
                    } else {
                        proof {
                            pq.lemma_ordered_elsewhere(before, distances@);
                        }
                        pq.push(tgt, &distances);
                    }
                } else {
                    proof {
                        self.lemma_pass(distances@, settled, u, i as int);
                    }
                }
                i += 1;
            }
            proof {
                self.lemma_scanned_all(distances@, settled, u);
            }
        }
        proof {
            assert forall|e: int|
                0 <= e < self.num_edges && distances@[self.edges@[e].src as int]
                    < INFINITE implies #[trigger] self.relaxed(distances@, e) by {
                self.lemma_all_relaxed(src_id as int, distances@, settled, e);
            }
            self.lemma_search_done(src_id as int, distances@);
        }
        distances
    }

    /// The distance of every node from the nearest of `roots`.
    pub fn root_distances(&self, roots: &Vec<usize>) -> (distances: Vec<usize>)
        requires
            self.wf(),
            forall|i: int| 0 <= i < roots@.len() ==> (#[trigger] roots@[i]) < self.num_nodes,
        ensures
            self.is_root_distance_table(roots@, distances@),
    {
        let n: usize = self.num_nodes;
        let mut distances: Vec<usize> = Vec::new();
        let mut k: usize = 0;
        while k < n
            invariant
                k <= n,
                distances@.len() == k,
                forall|v: int| 0 <= v < k ==> distances@[v] == INFINITE,
            decreases n - k,
        {
            distances.push(INFINITE);
            k += 1;
        }
        let mut r: usize = 0;
        while r < roots.len()
            invariant
                self.wf(),
                n == self.num_nodes,
                r <= roots@.len(),
                forall|i: int| 0 <= i < roots@.len() ==> (#[trigger] roots@[i]) < self.num_nodes,
                self.is_root_distance_table(roots@.take(r as int), distances@),
            decreases roots@.len() - r,
        {
            let from_root = self.run_dijkstra(roots[r]);
            let ghost before = distances@;
            let mut v: usize = 0;
            while v < n
                invariant
                    n == self.num_nodes,
                    v <= n,
                    from_root@.len() == n,
                    before.len() == n,
                    distances@.len() == n,
                    forall|u: int|
                        0 <= u < v ==> #[trigger] distances@[u] == if from_root@[u] < before[u] {
                            from_root@[u]
                        } else {
                            before[u]
                        },
                    forall|u: int| v <= u < n ==> #[trigger] distances@[u] == before[u],
                decreases n - v,
            {
                if from_root[v] < distances[v] {
                    distances.set(v, from_root[v]);
                }
                v += 1;
            }
            proof {
                self.lemma_root_table_grows(roots@, r as int, before, from_root@, distances@);
            }
            r += 1;
        }
        assert(roots@.take(roots@.len() as int) =~= roots@);
        distances
    }

    /// The distances from one more root are the smaller, node by node, of the
    /// distances from the roots so far and those from the new root.
    proof fn lemma_root_table_grows(
        &self,
        roots: Seq<usize>,
        r: int,
        before: Seq<usize>,
        from_root: Seq<usize>,
        after: Seq<usize>,
    )
        requires
            0 <= r < roots.len(),
            self.is_root_distance_table(roots.take(r), before),
            self.is_distance_table(roots[r] as int, from_root),
            after.len() == self.num_nodes,
            forall|u: int|
                0 <= u < self.num_nodes ==> #[trigger] after[u] == if from_root[u] < before[u] {
                    from_root[u]
                } else {
                    before[u]
                },
        ensures
            self.is_root_distance_table(roots.take(r + 1), after),
    {
        let shorter = roots.take(r);
        let longer = roots.take(r + 1);
        assert forall|v: int, i: int|
            0 <= v < self.num_nodes && 0 <= i < longer.len() implies #[trigger] self.no_path_below(
            longer[i] as int,
            v,
            after[v] as int,
        ) by {
            assert(after[v] <= from_root[v] && after[v] <= before[v]);
            if i < r {
                assert(self.no_path_below(shorter[i] as int, v, before[v] as int));
            } else {
                assert(from_root[v] < INFINITE ==> self.is_distance(
                    roots[r] as int,
                    v,
                    from_root[v] as int,
                ));
            }
        }
        assert forall|v: int|
            0 <= v < self.num_nodes && (#[trigger] after[v]) < INFINITE implies exists|i: int|
            0 <= i < longer.len() && #[trigger] self.has_path_of_weight(
                longer[i] as int,
                v,
                after[v] as int,
            ) by {
            if from_root[v] < before[v] {
                assert(self.has_path_of_weight(longer[r] as int, v, after[v] as int));
            } else {
                assert(before[v] < INFINITE);
                let i = choose|i: int|
                    0 <= i < shorter.len() && #[trigger] self.has_path_of_weight(
                        shorter[i] as int,
                        v,
                        before[v] as int,
                    );
                assert(self.has_path_of_weight(longer[i] as int, v, after[v] as int));
            }
        }
    }
}

} // verus!
