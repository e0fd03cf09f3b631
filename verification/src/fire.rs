//! How fire threatens and reaches nodes along the edges of a graph.
use crate::graph::Graph;
use crate::node_data::{marked, FireState, NodeData, NodeDataStorage, TimeUnit};
use vstd::prelude::*;

verus! {

/// The edge `e` leads from a burning node to an undefended one.
pub open spec fn threatens(graph: &Graph, state: FireState, e: int) -> bool {
    &&& 0 <= e < graph.num_edges
    &&& state.burning.contains_key(graph.edges@[e].src)
    &&& state.undefended(graph.edges@[e].tgt)
}

/// The node is undefended and a neighbour of a burning node.
#[verifier::opaque]
pub open spec fn threatened(graph: &Graph, state: FireState, node_id: usize) -> bool {
    exists|e: int| #[trigger] threatens(graph, state, e) && graph.edges@[e].tgt == node_id
}

/// Some burning node has an undefended neighbour: the fire can still spread.
#[verifier::opaque]
pub open spec fn has_frontier(graph: &Graph, state: FireState) -> bool {
    exists|e: int| #[trigger] threatens(graph, state, e)
}

/// By `time` the fire has crossed the threatening edge `e`: its source has
/// burnt for as many ticks as the edge weighs.
pub open spec fn crossed(graph: &Graph, state: FireState, e: int, time: TimeUnit) -> bool {
    &&& threatens(graph, state, e)
    &&& state.burning[graph.edges@[e].src].time + graph.edges@[e].dist <= time
}

/// The node catches fire at `time`: the fire has crossed an edge to it.
#[verifier::opaque]
pub open spec fn catches_fire(
    graph: &Graph,
    state: FireState,
    node_id: usize,
    time: TimeUnit,
) -> bool {
    exists|e: int| #[trigger] crossed(graph, state, e, time) && graph.edges@[e].tgt == node_id
}

/// The burning nodes after the fire has spread at `time`: those that burnt
/// before, unchanged, and those that catch fire, recorded at `time`.
pub open spec fn spread(graph: &Graph, state: FireState, time: TimeUnit) -> Map<
    usize,
    NodeData,
> {
    Map::new(
        |k: usize| state.burning.contains_key(k) || catches_fire(graph, state, k, time),
        |k: usize|
            if state.burning.contains_key(k) {
                state.burning[k]
            } else {
                NodeData { node_id: k, time }
            },
    )
}

/// The end of an edge that the fire has crossed catches fire.
pub proof fn lemma_crossing_sets_fire(graph: &Graph, state: FireState, e: int, time: TimeUnit)
    requires
        crossed(graph, state, e, time),
    ensures
        catches_fire(graph, state, graph.edges@[e].tgt, time),
{
    reveal(catches_fire);
}

/// An edge that the fire has crossed to a node that catches fire.
pub proof fn lemma_crossing_of(graph: &Graph, state: FireState, node_id: usize, time: TimeUnit) -> (e:
    int)
    requires
        catches_fire(graph, state, node_id, time),
    ensures
        crossed(graph, state, e, time),
        graph.edges@[e].tgt == node_id,
{
    reveal(catches_fire);
    choose|e: int| #[trigger] crossed(graph, state, e, time) && graph.edges@[e].tgt == node_id
}

/// The end of a threatening edge is threatened, and there is a frontier.
pub proof fn lemma_threat_counts(graph: &Graph, state: FireState, e: int)
    requires
        threatens(graph, state, e),
    ensures
        threatened(graph, state, graph.edges@[e].tgt),
        has_frontier(graph, state),
{
    reveal(threatened);
    reveal(has_frontier);
}

/// An edge that threatens a threatened node.
pub proof fn lemma_threat_to(graph: &Graph, state: FireState, node_id: usize) -> (e: int)
    requires
        threatened(graph, state, node_id),
    ensures
        threatens(graph, state, e),
        graph.edges@[e].tgt == node_id,
{
    reveal(threatened);
    choose|e: int| #[trigger] threatens(graph, state, e) && graph.edges@[e].tgt == node_id
}

/// A threatening edge, where there is a frontier.
pub proof fn lemma_threat_at_frontier(graph: &Graph, state: FireState) -> (e: int)
    requires
        has_frontier(graph, state),
    ensures
        threatens(graph, state, e),
{
    reveal(has_frontier);
    choose|e: int| #[trigger] threatens(graph, state, e)
}

/// A node that catches fire is one of the nodes of the graph and was
/// undefended.
pub proof fn lemma_catching_fire_was_undefended(
    graph: &Graph,
    state: FireState,
    node_id: usize,
    time: TimeUnit,
)
    requires
        graph.wf(),
        catches_fire(graph, state, node_id, time),
    ensures
        node_id < graph.num_nodes,
        state.undefended(node_id),
        threatened(graph, state, node_id),
{
    let e = lemma_crossing_of(graph, state, node_id, time);
    lemma_threat_counts(graph, state, e);
}

/// Recording at `time` the nodes that catch fire is spreading the fire.
pub proof fn lemma_marked_is_spread(
    graph: &Graph,
    state: FireState,
    to_burn: Seq<usize>,
    time: TimeUnit,
)
    requires
        graph.wf(),
        forall|k: usize| to_burn.contains(k) <==> #[trigger] catches_fire(graph, state, k, time),
    ensures
        marked(state.burning, to_burn, time) == spread(graph, state, time),
{
    let left = marked(state.burning, to_burn, time);
    let right = spread(graph, state, time);
    assert forall|k: usize| left.contains_key(k) <==> right.contains_key(k) by {
        assert(to_burn.contains(k) <==> catches_fire(graph, state, k, time));
    }
    assert forall|k: usize| left.contains_key(k) implies left[k] == right[k] by {
        assert(to_burn.contains(k) <==> catches_fire(graph, state, k, time));
        if to_burn.contains(k) {
            lemma_catching_fire_was_undefended(graph, state, k, time);
        }
    }
    assert(left =~= right);
}

/// Where no burning node has an undefended neighbour, nothing catches fire,
/// and defending more nodes does not change that.
pub proof fn lemma_no_frontier_is_stable(
    graph: &Graph,
    state: FireState,
    defended: Map<usize, NodeData>,
    time: TimeUnit,
)
    requires
        !has_frontier(graph, state),
        forall|k: usize| #[trigger] state.defended.contains_key(k) ==> defended.contains_key(k),
    ensures
        ({
            let contained = FireState { burning: state.burning, defended };
            &&& !has_frontier(graph, contained)
            &&& spread(graph, contained, time) == state.burning
            &&& !has_frontier(graph, FireState { burning: spread(graph, contained, time), defended })
        }),
{
    let contained = FireState { burning: state.burning, defended };
    assert forall|e: int| !#[trigger] threatens(graph, contained, e) by {
        if threatens(graph, contained, e) {
            assert(threatens(graph, state, e));
            lemma_threat_counts(graph, state, e);
        }
    }
    assert forall|k: usize| !catches_fire(graph, contained, k, time) by {
        if catches_fire(graph, contained, k, time) {
            let e = lemma_crossing_of(graph, contained, k, time);
            assert(threatens(graph, contained, e));
        }
    }
    assert(spread(graph, contained, time) =~= state.burning);
    if has_frontier(graph, contained) {
        let e = lemma_threat_at_frontier(graph, contained);
    }
    let after = FireState { burning: spread(graph, contained, time), defended };
    if has_frontier(graph, after) {
        let e = lemma_threat_at_frontier(graph, after);
        assert(threatens(graph, contained, e));
    }
}

/// A defended node that does not burn does not catch fire either.
pub proof fn lemma_spread_spares_defended(graph: &Graph, state: FireState, time: TimeUnit, k: usize)
    requires
        !state.burning.contains_key(k),
        state.defended.contains_key(k),
    ensures
        !spread(graph, state, time).contains_key(k),
{
    if catches_fire(graph, state, k, time) {
        let e = lemma_crossing_of(graph, state, k, time);
        assert(threatens(graph, state, e));
    }
}

/// `k` is one of the entries of `s`.
#[verifier::opaque]
spec fn holds(s: Seq<usize>, k: usize) -> bool {
    s.contains(k)
}

/// A sequence with one more entry holds what it held before, and the entry.
proof fn lemma_holds_push(s: Seq<usize>, x: usize, k: usize)
    ensures
        holds(s.push(x), k) <==> holds(s, k) || k == x,
{
    reveal(holds);
    if s.contains(k) {
        let at = choose|at: int| 0 <= at < s.len() && s[at] == k;
        assert(s.push(x)[at] == k);
    }
    if k == x {
        assert(s.push(x)[s.len() as int] == k);
    }
}

/// Decides whether the fire has crossed the edge `i`, which leaves the
/// burning node `record`, by `time`.
fn has_crossed(
    graph: &Graph,
    node_data: &NodeDataStorage,
    record: &NodeData,
    i: usize,
    time: TimeUnit,
) -> (yes: bool)
    requires
        graph.wf(),
        i < graph.num_edges,
        graph.edges@[i as int].src == record.node_id,
        node_data.burning().contains_key(record.node_id),
        node_data.burning()[record.node_id] == *record,
    ensures
        yes == crossed(graph, node_data@, i as int, time),
{
    let edge = graph.edges[i];
    node_data.is_undefended(&edge.tgt) && record.time <= time && time - record.time
        >= edge.dist as u64
}

/// Adds to `to_burn` the ends of the edges of the burning node `record` that
/// the fire has crossed at `time`.
fn crossings_from(
    graph: &Graph,
    node_data: &NodeDataStorage,
    record: &NodeData,
    time: TimeUnit,
    to_burn: &mut Vec<usize>,
)
    requires
        graph.wf(),
        node_data.wf(),
        record.node_id < graph.num_nodes,
        node_data.burning().contains_key(record.node_id),
        node_data.burning()[record.node_id] == *record,
    ensures
        forall|k: usize| #[trigger] holds(old(to_burn)@, k) ==> holds(final(to_burn)@, k),
        forall|k: usize| #[trigger]
            holds(final(to_burn)@, k) ==> holds(old(to_burn)@, k) || catches_fire(
                graph,
                node_data@,
                k,
                time,
            ),
        forall|e: int|
            #[trigger] crossed(graph, node_data@, e, time) && graph.edges@[e].src == record.node_id
                ==> holds(final(to_burn)@, graph.edges@[e].tgt),
{
    let node_id: usize = record.node_id;
    let lo: usize = graph.offsets[node_id];
    let hi: usize = graph.offsets[node_id + 1];
    let mut i: usize = lo;
    while i < hi
        invariant
            graph.wf(),
            node_id == record.node_id,
            node_id < graph.num_nodes,
            node_data.burning().contains_key(node_id),
            node_data.burning()[node_id] == *record,
            lo == graph.offsets@[node_id as int],
            hi == graph.offsets@[node_id + 1],
            lo <= i <= hi <= graph.num_edges,
            forall|k: usize| #[trigger] holds(old(to_burn)@, k) ==> holds(to_burn@, k),
            forall|k: usize| #[trigger]
                holds(to_burn@, k) ==> holds(old(to_burn)@, k) || catches_fire(
                    graph,
                    node_data@,
                    k,
                    time,
                ),
            forall|e: int|
                lo <= e < i && #[trigger] crossed(graph, node_data@, e, time) ==> holds(
                    to_burn@,
                    graph.edges@[e].tgt,
                ),
        decreases hi - i,
    {
        let edge = graph.edges[i];
        assert(graph.in_range_of(node_id as int, i as int));
        if has_crossed(graph, node_data, record, i, time) {
            let ghost before = to_burn@;
            to_burn.push(edge.tgt);
            proof {
                lemma_crossing_sets_fire(graph, node_data@, i as int, time);
                assert forall|k: usize| #[trigger] holds(old(to_burn)@, k) implies holds(
                    to_burn@,
                    k,
                ) by {
                    lemma_holds_push(before, edge.tgt, k);
                }
                assert forall|k: usize| #[trigger] holds(to_burn@, k) implies holds(
                    old(to_burn)@,
                    k,
                ) || catches_fire(graph, node_data@, k, time) by {
                    lemma_holds_push(before, edge.tgt, k);
                }
                assert forall|e: int|
                    lo <= e < i + 1 && #[trigger] crossed(
                        graph,
                        node_data@,
                        e,
                        time,
                    ) implies holds(to_burn@, graph.edges@[e].tgt) by {
                    lemma_holds_push(before, edge.tgt, graph.edges@[e].tgt);
                }
            }
        }
        i += 1;
    }
    proof {
        assert forall|e: int|
            #[trigger] crossed(graph, node_data@, e, time) && graph.edges@[e].src
                == record.node_id implies holds(to_burn@, graph.edges@[e].tgt) by {
            graph.lemma_edge_in_range_of_source(e);
        }
    }
}

/// The nodes that catch fire at `time`, one entry for every edge that the
/// fire has crossed.
pub fn nodes_catching_fire(graph: &Graph, node_data: &NodeDataStorage, time: TimeUnit) -> (to_burn:
    Vec<usize>)
    requires
        graph.wf(),
        node_data.wf(),
        node_data.ids_below(graph.num_nodes),
    ensures
        forall|k: usize| to_burn@.contains(k) <==> #[trigger] catches_fire(graph, node_data@, k, time),
{
    let mut to_burn: Vec<usize> = Vec::new();
    let burning = node_data.get_burning();
    let mut b: usize = 0;
    proof {
        assert forall|k: usize| !#[trigger] holds(to_burn@, k) by {
            reveal(holds);
        }
    }
    while b < burning.len()
        invariant
            graph.wf(),
            node_data.wf(),
            node_data.ids_below(graph.num_nodes),
            crate::node_data::lists(burning@, node_data.burning()),
            b <= burning@.len(),
            forall|k: usize| #[trigger]
                holds(to_burn@, k) ==> catches_fire(graph, node_data@, k, time),
            forall|e: int, j: int|
                #![trigger burning@[j], crossed(graph, node_data@, e, time)]
                0 <= j < b && burning@[j].node_id == graph.edges@[e].src && crossed(
                    graph,
                    node_data@,
                    e,
                    time,
                ) ==> holds(to_burn@, graph.edges@[e].tgt),
        decreases burning@.len() - b,
    {
        assert(node_data.burning().contains_key(burning@[b as int].node_id));
        crossings_from(graph, node_data, burning[b], time, &mut to_burn);
        b += 1;
    }
    proof {
        assert forall|k: usize| to_burn@.contains(k) <==> #[trigger] catches_fire(
            graph,
            node_data@,
            k,
            time,
        ) by {
            reveal(holds);
            if catches_fire(graph, node_data@, k, time) {
                let e = lemma_crossing_of(graph, node_data@, k, time);
                let src = graph.edges@[e].src;
                assert(node_data.burning().contains_key(src));
                let j = choose|j: int|
                    0 <= j < burning@.len() && (#[trigger] burning@[j]).node_id == src;
                assert(holds(to_burn@, k));
            }
            if to_burn@.contains(k) {
                assert(holds(to_burn@, k));
            }
        }
    }
    to_burn
}

/// Lets the nodes that catch fire at `time` burn from `time` on.
pub fn burn_reached_nodes(graph: &Graph, node_data: &mut NodeDataStorage, time: TimeUnit)
    requires
        graph.wf(),
        old(node_data).wf(),
        old(node_data).ids_below(graph.num_nodes),
    ensures
        final(node_data).wf(),
        final(node_data).ids_below(graph.num_nodes),
        final(node_data)@.defended == old(node_data)@.defended,
        final(node_data)@.burning == spread(graph, old(node_data)@, time),
{
    let to_burn = nodes_catching_fire(graph, node_data, time);
    proof {
        let state = node_data@;
        assert forall|i: int| 0 <= i < to_burn@.len() implies state.undefended(
            #[trigger] to_burn@[i],
        ) by {
            assert(to_burn@.contains(to_burn@[i]));
            lemma_catching_fire_was_undefended(graph, state, to_burn@[i], time);
        }
        lemma_marked_is_spread(graph, state, to_burn@, time);
    }
    node_data.mark_burning(&to_burn, time);
    proof {
        lemma_spread_stays_below(graph, old(node_data)@, time);
    }
}

/// After the fire has spread, every burning node is still a node of the
/// graph.
pub proof fn lemma_spread_stays_below(graph: &Graph, state: FireState, time: TimeUnit)
    requires
        graph.wf(),
        state.ids_below(graph.num_nodes),
    ensures
        forall|k: usize| #[trigger]
            spread(graph, state, time).contains_key(k) ==> k < graph.num_nodes,
{
    assert forall|k: usize| #[trigger] spread(graph, state, time).contains_key(k) implies k
        < graph.num_nodes by {
        if !state.burning.contains_key(k) {
            lemma_catching_fire_was_undefended(graph, state, k, time);
        }
    }
}

/// Flags the undefended neighbours of the burning node `node_id`.
fn flag_neighbours(
    graph: &Graph,
    node_data: &NodeDataStorage,
    node_id: usize,
    flags: &mut Vec<bool>,
)
    requires
        graph.wf(),
        node_id < graph.num_nodes,
        node_data.burning().contains_key(node_id),
        old(flags)@.len() == graph.num_nodes,
    ensures
        final(flags)@.len() == graph.num_nodes,
        forall|v: int| 0 <= v < graph.num_nodes && old(flags)@[v] ==> final(flags)@[v],
        forall|v: usize|
            v < graph.num_nodes && final(flags)@[v as int] ==> old(flags)@[v as int]
                || #[trigger] threatened(graph, node_data@, v),
        forall|e: int|
            #[trigger] threatens(graph, node_data@, e) && graph.edges@[e].src == node_id
                ==> final(flags)@[graph.edges@[e].tgt as int],
{
    let lo: usize = graph.offsets[node_id];
    let hi: usize = graph.offsets[node_id + 1];
    let mut i: usize = lo;
    while i < hi
        invariant
            graph.wf(),
            node_id < graph.num_nodes,
            node_data.burning().contains_key(node_id),
            lo == graph.offsets@[node_id as int],
            hi == graph.offsets@[node_id + 1],
            lo <= i <= hi <= graph.num_edges,
            flags@.len() == graph.num_nodes,
            forall|v: int| 0 <= v < graph.num_nodes && old(flags)@[v] ==> flags@[v],
            forall|v: usize|
                v < graph.num_nodes && flags@[v as int] ==> old(flags)@[v as int]
                    || #[trigger] threatened(graph, node_data@, v),
            forall|e: int|
                lo <= e < i && #[trigger] threatens(graph, node_data@, e)
                    ==> flags@[graph.edges@[e].tgt as int],
        decreases hi - i,
    {
        let tgt: usize = graph.edges[i].tgt;
        assert(graph.in_range_of(node_id as int, i as int));
        if node_data.is_undefended(&tgt) {
            proof {
                assert(threatens(graph, node_data@, i as int));
                lemma_threat_counts(graph, node_data@, i as int);
            }
            flags.set(tgt, true);
        }
        i += 1;
    }
    proof {
        assert forall|e: int|
            #[trigger] threatens(graph, node_data@, e) && graph.edges@[e].src
                == node_id implies flags@[graph.edges@[e].tgt as int] by {
            graph.lemma_edge_in_range_of_source(e);
        }
    }
}

/// For every node, whether it is undefended and a neighbour of a burning
/// node.
pub fn threatened_nodes(graph: &Graph, node_data: &NodeDataStorage) -> (flags: Vec<bool>)
    requires
        graph.wf(),
        node_data.wf(),
        node_data.ids_below(graph.num_nodes),
    ensures
        flags@.len() == graph.num_nodes,
        forall|v: usize|
            v < graph.num_nodes ==> flags@[v as int] == #[trigger] threatened(graph, node_data@, v),
{
    let n: usize = graph.num_nodes;
    let mut flags: Vec<bool> = Vec::new();
    let mut v: usize = 0;
    while v < n
        invariant
            v <= n,
            flags@.len() == v,
            forall|u: int| 0 <= u < v ==> !flags@[u],
        decreases n - v,
    {
        flags.push(false);
        v += 1;
    }
    let burning = node_data.get_burning();
    let mut b: usize = 0;
    while b < burning.len()
        invariant
            graph.wf(),
            node_data.wf(),
            node_data.ids_below(graph.num_nodes),
            n == graph.num_nodes,
            crate::node_data::lists(burning@, node_data.burning()),
            b <= burning@.len(),
            flags@.len() == n,
            forall|v: usize|
                v < n && flags@[v as int] ==> #[trigger] threatened(graph, node_data@, v),
            forall|e: int, j: int|
                #![trigger burning@[j], threatens(graph, node_data@, e)]
                0 <= j < b && burning@[j].node_id == graph.edges@[e].src && threatens(
                    graph,
                    node_data@,
                    e,
                ) ==> flags@[graph.edges@[e].tgt as int],
        decreases burning@.len() - b,
    {
        assert(node_data.burning().contains_key(burning@[b as int].node_id));
        flag_neighbours(graph, node_data, burning[b].node_id, &mut flags);
        b += 1;
    }
    proof {
        assert forall|v: usize| v < n && #[trigger] threatened(
            graph,
            node_data@,
            v,
        ) implies flags@[v as int] by {
            let e = lemma_threat_to(graph, node_data@, v);
            let src = graph.edges@[e].src;
            let j = choose|j: int| 0 <= j < burning@.len()
                && (#[trigger] burning@[j]).node_id == src;
        }
    }
    flags
}

/// Decides whether some burning node has an undefended neighbour.
pub fn frontier_exists(graph: &Graph, node_data: &NodeDataStorage) -> (active: bool)
    requires
        graph.wf(),
        node_data.wf(),
        node_data.ids_below(graph.num_nodes),
    ensures
        active == has_frontier(graph, node_data@),
{
    let burning = node_data.get_burning();
    let mut b: usize = 0;
    while b < burning.len()
        invariant
            graph.wf(),
            node_data.wf(),
            node_data.ids_below(graph.num_nodes),
            crate::node_data::lists(burning@, node_data.burning()),
            b <= burning@.len(),
            forall|e: int, j: int|
                #![trigger burning@[j], threatens(graph, node_data@, e)]
                0 <= j < b && burning@[j].node_id == graph.edges@[e].src ==> !threatens(
                    graph,
                    node_data@,
                    e,
                ),
        decreases burning@.len() - b,
    {
        let node_id: usize = burning[b].node_id;
        assert(node_data.burning().contains_key(node_id));
        let lo: usize = graph.offsets[node_id];
        let hi: usize = graph.offsets[node_id + 1];
        let mut i: usize = lo;
        while i < hi
            invariant
                graph.wf(),
                node_id < graph.num_nodes,
                node_data.burning().contains_key(node_id),
                lo == graph.offsets@[node_id as int],
                hi == graph.offsets@[node_id + 1],
                lo <= i <= hi <= graph.num_edges,
                forall|e: int| lo <= e < i ==> !#[trigger] threatens(graph, node_data@, e),
            decreases hi - i,
        {
            assert(graph.in_range_of(node_id as int, i as int));
            if node_data.is_undefended(&graph.edges[i].tgt) {
                proof {
                    assert(threatens(graph, node_data@, i as int));
                    lemma_threat_counts(graph, node_data@, i as int);
                }
                return true;
            }
            i += 1;
        }
        proof {
            assert forall|e: int, j: int|
                #![trigger burning@[j], threatens(graph, node_data@, e)]
                0 <= j < b + 1 && burning@[j].node_id == graph.edges@[e].src implies !threatens(
                    graph,
                    node_data@,
                    e,
                ) by {
                if j == b && 0 <= e < graph.num_edges {
                    graph.lemma_edge_in_range_of_source(e);
                }
            }
        }
        b += 1;
    }
    proof {
        if has_frontier(graph, node_data@) {
            let e = lemma_threat_at_frontier(graph, node_data@);
            let src = graph.edges@[e].src;
            let j = choose|j: int| 0 <= j < burning@.len()
                && (#[trigger] burning@[j]).node_id == src;
        }
    }
    false
}

} // verus!
