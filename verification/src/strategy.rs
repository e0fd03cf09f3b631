//! Containment strategies: which nodes to defend in a round.
//!
//! Every strategy ranks the nodes it considers by a key, the smaller the more
//! urgent, and defends the most urgent ones, as many as the settings allow.
//! Among nodes of equal key the one with the smaller id goes first.
//!
//! * The greedy strategy considers the undefended neighbours of burning
//!   nodes and prefers those with more outgoing edges.
//! * The minimum-distance-group strategy considers, of the undefended nodes
//!   that the fire can reach, those nearest to the fire roots: one group of
//!   equal distance per round.
//! * The priority strategy considers every undefended node that the fire can
//!   reach and prefers those nearer to the fire roots, which the fire would
//!   reach sooner.
use crate::fire::{lemma_threat_to, threatened, threatened_nodes};
use crate::graph::Graph;
use crate::node_data::{FireState, NodeData, NodeDataStorage, TimeUnit};
use crate::settings::OSMFSettings;
use crate::shortest_path::INFINITE;
use std::sync::Arc;
use vstd::prelude::*;

verus! {

/// `a` goes before `b`: its key is smaller, or equal with `a` the smaller id.
pub open spec fn ranks_before(keys: Seq<usize>, a: usize, b: usize) -> bool {
    keys[a as int] < keys[b as int] || (keys[a as int] == keys[b as int] && a < b)
}

/// The nodes that are defended in `after` and were not in `before`.
pub open spec fn newly_defended(
    before: Map<usize, NodeData>,
    after: Map<usize, NodeData>,
) -> Set<usize> {
    Set::new(|k: usize| after.contains_key(k) && !before.contains_key(k))
}

/// `after` is `before` with the most urgent of `candidates` defended at
/// `time`: all of them if they are no more than `budget`, else the `budget`
/// that go before all others.
pub open spec fn defends_most_urgent(
    before: Map<usize, NodeData>,
    after: Map<usize, NodeData>,
    candidates: Set<usize>,
    keys: Seq<usize>,
    budget: usize,
    time: TimeUnit,
) -> bool {
    let chosen = newly_defended(before, after);
    &&& forall|k: usize| #[trigger]
        before.contains_key(k) ==> after.contains_key(k) && after[k] == before[k]
    &&& forall|k: usize| #[trigger]
        chosen.contains(k) ==> candidates.contains(k) && after[k] == (NodeData { node_id: k, time })
    &&& chosen.finite()
    &&& chosen.len() <= budget
    &&& chosen.len() < budget ==> forall|k: usize| #[trigger]
        candidates.contains(k) ==> chosen.contains(k)
    &&& forall|c: usize, u: usize|
        #![trigger chosen.contains(c), candidates.contains(u)]
        chosen.contains(c) && candidates.contains(u) && !chosen.contains(u) ==> ranks_before(
            keys,
            c,
            u,
        )
}

/// Whoever is defended after a round was defended before or is a candidate.
pub proof fn lemma_defended_are_candidates(
    before: Map<usize, NodeData>,
    after: Map<usize, NodeData>,
    candidates: Set<usize>,
    keys: Seq<usize>,
    budget: usize,
    time: TimeUnit,
)
    requires
        defends_most_urgent(before, after, candidates, keys, budget, time),
    ensures
        forall|k: usize| #[trigger]
            after.contains_key(k) ==> before.contains_key(k) || candidates.contains(k),
{
    assert forall|k: usize| #[trigger] after.contains_key(k) implies before.contains_key(k)
        || candidates.contains(k) by {
        if !before.contains_key(k) {
            assert(newly_defended(before, after).contains(k));
        }
    }
}

/// The nodes flagged in `eligible`.
pub open spec fn flagged(eligible: Seq<bool>) -> Set<usize> {
    Set::new(|v: usize| v < eligible.len() && eligible[v as int])
}

/// The most urgent of the flagged nodes that is still undefended, if any.
fn most_urgent(node_data: &NodeDataStorage, eligible: &Vec<bool>, keys: &Vec<usize>) -> (best:
    Option<usize>)
    requires
        eligible@.len() == keys@.len(),
    ensures
        match best {
            Some(b) => {
                &&& flagged(eligible@).contains(b)
                &&& node_data.undefended(b)
                &&& forall|u: usize|
                    flagged(eligible@).contains(u) && #[trigger] node_data.undefended(u) && u != b
                        ==> ranks_before(keys@, b, u)
            },
            None => forall|u: usize|
                flagged(eligible@).contains(u) ==> !#[trigger] node_data.undefended(u),
        },
{
    let n: usize = eligible.len();
    let mut best: Option<usize> = None;
    let mut v: usize = 0;
    while v < n
        invariant
            n == eligible@.len(),
            n == keys@.len(),
            v <= n,
            match best {
                Some(b) => {
                    &&& b < v
                    &&& flagged(eligible@).contains(b)
                    &&& node_data.undefended(b)
                    &&& forall|u: usize|
                        u < v && flagged(eligible@).contains(u) && #[trigger] node_data.undefended(
                            u,
                        ) && u != b ==> ranks_before(keys@, b, u)
                },
                None => forall|u: usize|
                    u < v && flagged(eligible@).contains(u) ==> !#[trigger] node_data.undefended(u),
            },
        decreases n - v,
    {
        if eligible[v] && node_data.is_undefended(&v) {
            match best {
                Some(b) => {
                    if keys[v] < keys[b] {
                        best = Some(v);
                    }
                },
                None => {
                    best = Some(v);
                },
            }
        }
        v += 1;
    }
    best
}

/// Defends at `time` the most urgent of the flagged nodes, `budget` at most.
pub fn defend_most_urgent(
    node_data: &mut NodeDataStorage,
    eligible: &Vec<bool>,
    keys: &Vec<usize>,
    budget: usize,
    time: TimeUnit,
)
    requires
        old(node_data).wf(),
        eligible@.len() == keys@.len(),
        forall|v: usize| #[trigger] flagged(eligible@).contains(v) ==> old(node_data).undefended(v),
    ensures
        final(node_data).wf(),
        final(node_data).burning() == old(node_data).burning(),
        defends_most_urgent(
            old(node_data).defended(),
            final(node_data).defended(),
            flagged(eligible@),
            keys@,
            budget,
            time,
        ),
{
    let ghost before = node_data.defended();
    let ghost candidates = flagged(eligible@);
    let mut round: usize = 0;
    assert(newly_defended(before, before) =~= Set::<usize>::empty());
    loop
        invariant
            node_data.wf(),
            node_data.burning() == old(node_data).burning(),
            before == old(node_data).defended(),
            candidates == flagged(eligible@),
            eligible@.len() == keys@.len(),
            round <= budget,
            forall|v: usize| #[trigger] candidates.contains(v) ==> old(node_data).undefended(v),
            forall|k: usize| #[trigger]
                before.contains_key(k) ==> node_data.defended().contains_key(k)
                    && node_data.defended()[k] == before[k],
            forall|k: usize| #[trigger]
                newly_defended(before, node_data.defended()).contains(k) ==> candidates.contains(k)
                    && node_data.defended()[k] == (NodeData { node_id: k, time }),
            newly_defended(before, node_data.defended()).finite(),
            newly_defended(before, node_data.defended()).len() == round,
            forall|c: usize, u: usize|
                #![trigger newly_defended(before, node_data.defended()).contains(c), candidates.contains(u)]
                newly_defended(before, node_data.defended()).contains(c) && candidates.contains(u)
                    && !newly_defended(before, node_data.defended()).contains(u) ==> ranks_before(
                    keys@,
                    c,
                    u,
                ),
        ensures
            defends_most_urgent(before, node_data.defended(), candidates, keys@, budget, time),
        decreases budget - round,
    {
        if round >= budget {
            break ;
        }
        let best = most_urgent(node_data, eligible, keys);
        let ghost chosen = newly_defended(before, node_data.defended());
        match best {
            None => {
                proof {
                    assert forall|k: usize| #[trigger]
                        candidates.contains(k) implies chosen.contains(k) by {
                        assert(!node_data.undefended(k));
                        assert(old(node_data).undefended(k));
                    }
                }
                break ;
            },
            Some(b) => {
                let ghost snapshot = *node_data;
                let mut one: Vec<usize> = Vec::new();
                one.push(b);
                node_data.mark_defended(&one, time);
                proof {
                    assert(one@[0] == b);
                    assert forall|k: usize| one@.contains(k) <==> k == b by {
                    }
                    let grown = newly_defended(before, node_data.defended());
                    assert(grown =~= chosen.insert(b));
                    assert forall|c: usize, u: usize|
                        #![trigger grown.contains(c), candidates.contains(u)]
                        grown.contains(c) && candidates.contains(u) && !grown.contains(
                            u,
                        ) implies ranks_before(keys@, c, u) by {
                        if c == b {
                            assert(!chosen.contains(u));
                            assert(old(node_data).undefended(u));
                            assert(snapshot.undefended(u));
                        } else {
                            assert(chosen.contains(c));
                            assert(!chosen.contains(u));
                        }
                    }
                }
                round += 1;
            },
        }
    }
}

/// A table of `n` flags, none of them set.
fn clear_flags(n: usize) -> (flags: Vec<bool>)
    ensures
        flags@.len() == n,
        forall|v: int| 0 <= v < n ==> !flags@[v],
{
    let mut flags: Vec<bool> = Vec::new();
    let mut v: usize = 0;
    while v < n
        invariant
            v <= n,
            flags@.len() == v,
            forall|u: int| 0 <= u < v ==> !flags@[u],
        decreases n - v,
    {
        flags.push(false);
        v += 1;
    }
    flags
}

/// What every containment strategy offers: it works on a graph, considers
/// some nodes for defence and ranks them by keys, and in a round defends the
/// most urgent of them.
pub trait Strategy: Sized {
    /// The graph on which the strategy works.
    spec fn graph(&self) -> Arc<Graph>;

    /// The strategy has what it needs for a round.
    spec fn ready(&self) -> bool;

    /// The nodes that the strategy considers in a round.
    spec fn candidates(&self, state: FireState) -> Set<usize>;

    /// The keys by which the strategy ranks the nodes.
    spec fn keys(&self) -> Seq<usize>;

    /// Create the strategy for `graph`.
    fn new(graph: Arc<Graph>) -> (strategy: Self)
        ensures
            strategy.graph() == graph,
    ;

    /// Defend at `global_time` the `settings.num_ffs` most urgent of the
    /// nodes that the strategy considers. Only undefended nodes are defended,
    /// and no burning node is touched.
    fn execute(
        &self,
        settings: &OSMFSettings,
        node_data: &mut NodeDataStorage,
        global_time: TimeUnit,
    )
        requires
            self.ready(),
            old(node_data).wf(),
            old(node_data).ids_below(self.graph().num_nodes),
        ensures
            final(node_data).wf(),
            final(node_data).ids_below(self.graph().num_nodes),
            final(node_data).burning() == old(node_data).burning(),
            defends_most_urgent(
                old(node_data).defended(),
                final(node_data).defended(),
                self.candidates(old(node_data)@),
                self.keys(),
                settings.num_ffs,
                global_time,
            ),
    ;
}

/// Defends the undefended neighbours of burning nodes, those with more
/// outgoing edges first.
#[derive(Debug)]
pub struct GreedyStrategy {
    graph: Arc<Graph>,
}

impl Strategy for GreedyStrategy {
    /// The graph on which the strategy works.
    closed spec fn graph(&self) -> Arc<Graph> {
        self.graph
    }

    /// The graph is well-formed.
    open spec fn ready(&self) -> bool {
        self.graph().wf()
    }

    /// The nodes considered: the undefended neighbours of burning nodes.
    open spec fn candidates(&self, state: FireState) -> Set<usize> {
        Set::new(|v: usize| v < self.graph().num_nodes && threatened(&*self.graph(), state, v))
    }

    /// The key of a node: the fewer outgoing edges, the larger.
    open spec fn keys(&self) -> Seq<usize> {
        Seq::new(
            self.graph().num_nodes as nat,
            |v: int| (usize::MAX - self.graph().degree(v)) as usize,
        )
    }

    /// Create the greedy strategy for `graph`.
    fn new(graph: Arc<Graph>) -> (strategy: Self) {
        Self { graph }
    }

    /// Defend at `global_time` the `settings.num_ffs` most urgent of the
    /// undefended neighbours of burning nodes.
    fn execute(
        &self,
        settings: &OSMFSettings,
        node_data: &mut NodeDataStorage,
        global_time: TimeUnit,
    ) {
        let n: usize = self.graph.num_nodes;
        let eligible = threatened_nodes(&self.graph, node_data);
        let mut keys: Vec<usize> = Vec::new();
        let mut v: usize = 0;
        while v < n
            invariant
                self.graph().wf(),
                n == self.graph().num_nodes,
                v <= n,
                keys@.len() == v,
                forall|u: int| 0 <= u < v ==> keys@[u] == self.keys()[u],
            decreases n - v,
        {
            keys.push(usize::MAX - self.graph.get_degree(v));
            v += 1;
        }
        assert(keys@ =~= self.keys());
        assert(flagged(eligible@) =~= self.candidates(node_data@));
        assert forall|v: usize| #[trigger] flagged(eligible@).contains(v)
            implies node_data.undefended(
            v,
        ) by {
            let e = lemma_threat_to(&*self.graph(), node_data@, v);
        }
        defend_most_urgent(node_data, &eligible, &keys, settings.num_ffs, global_time);
        proof {
            lemma_defended_are_candidates(
                old(node_data).defended(),
                node_data.defended(),
                self.candidates(old(node_data)@),
                self.keys(),
                settings.num_ffs,
                global_time,
            );
        }
    }
}

/// The nodes that the fire can reach and that are still undefended.
pub open spec fn reachable_undefended(distances: Seq<usize>, state: FireState, v: usize) -> bool {
    &&& v < distances.len()
    &&& distances[v as int] < INFINITE
    &&& state.undefended(v)
}

/// Defends the undefended nodes nearest to the fire roots, one group of
/// equal distance per round.
#[derive(Debug)]
pub struct MinDistanceGroupStrategy {
    graph: Arc<Graph>,
    distances: Vec<usize>,
}

impl MinDistanceGroupStrategy {
    /// The distance of every node from the nearest fire root, once computed.
    pub closed spec fn distances(&self) -> Seq<usize> {
        self.distances@
    }

    /// Compute the distance of every node from the nearest of `roots`.
    pub fn compute_nodes_to_defend(&mut self, roots: &Vec<usize>, _settings: &OSMFSettings)
        requires
            old(self).graph().wf(),
            forall|i: int| 0 <= i < roots@.len()
                ==> (#[trigger] roots@[i]) < old(self).graph().num_nodes,
        ensures
            final(self).graph() == old(self).graph(),
            final(self).graph().is_root_distance_table(roots@, final(self).distances()),
    {
        self.distances = self.graph.root_distances(roots);
    }
}

impl Strategy for MinDistanceGroupStrategy {
    /// The graph on which the strategy works.
    closed spec fn graph(&self) -> Arc<Graph> {
        self.graph
    }

    /// The graph is well-formed and every node has its distance.
    open spec fn ready(&self) -> bool {
        self.graph().wf() && self.distances().len() == self.graph().num_nodes
    }

    /// The nodes considered: of the undefended nodes that the fire can reach,
    /// those that are nearest to the fire roots.
    open spec fn candidates(&self, state: FireState) -> Set<usize> {
        Set::new(
            |v: usize|
                reachable_undefended(self.distances(), state, v) && forall|u: usize| #[trigger]
                    reachable_undefended(self.distances(), state, u) ==> self.distances()[v as int]
                        <= self.distances()[u as int],
        )
    }

    /// The key of a node: its distance from the nearest fire root.
    open spec fn keys(&self) -> Seq<usize> {
        self.distances()
    }

    /// Create the strategy for `graph`, with no distances computed yet.
    fn new(graph: Arc<Graph>) -> (strategy: Self) {
        Self { graph, distances: Vec::new() }
    }

    /// Defend at `global_time` the `settings.num_ffs` first, by node id, of
    /// the undefended reachable nodes nearest to the fire roots.
    fn execute(
        &self,
        settings: &OSMFSettings,
        node_data: &mut NodeDataStorage,
        global_time: TimeUnit,
    ) {
        let n: usize = self.distances.len();
        let mut nearest: usize = INFINITE;
        let mut v: usize = 0;
        while v < n
            invariant
                n == self.distances().len(),
                v <= n,
                forall|u: usize|
                    u < v && #[trigger] reachable_undefended(self.distances(), node_data@, u)
                        ==> nearest <= self.distances()[u as int],
                nearest < INFINITE ==> exists|u: usize|
                    u < v && #[trigger] reachable_undefended(self.distances(), node_data@, u)
                        && self.distances()[u as int] == nearest,
            decreases n - v,
        {
            if self.distances[v] < nearest && node_data.is_undefended(&v) {
                nearest = self.distances[v];
                assert(reachable_undefended(self.distances(), node_data@, v));
            }
            v += 1;
        }
        let mut eligible = clear_flags(n);
        let mut w: usize = 0;
        while w < n
            invariant
                n == self.distances().len(),
                w <= n,
                eligible@.len() == n,
                forall|u: int|
                    0 <= u < w ==> #[trigger] eligible@[u] == (self.distances()[u] == nearest
                        && reachable_undefended(self.distances(), node_data@, u as usize)),
                forall|u: int| w <= u < n ==> !#[trigger] eligible@[u],
            decreases n - w,
        {
            if nearest < INFINITE && self.distances[w] == nearest && node_data.is_undefended(&w) {
                eligible.set(w, true);
            }
            w += 1;
        }
        proof {
            let wanted = self.candidates(node_data@);
            assert forall|u: usize| flagged(eligible@).contains(u) <==> wanted.contains(u) by {
                if u < n {
                    assert(eligible@[u as int] == (self.distances()[u as int] == nearest
                        && reachable_undefended(self.distances(), node_data@, u)));
                }
                if wanted.contains(u) {
                    assert(reachable_undefended(self.distances(), node_data@, u));
                    if nearest < INFINITE {
                        let least = choose|least: usize|
                            least < n && self.distances()[least as int] == nearest
                                && #[trigger] reachable_undefended(
                                self.distances(),
                                node_data@,
                                least,
                            );
                    }
                }
            }
            assert(flagged(eligible@) =~= wanted);
        }
        defend_most_urgent(node_data, &eligible, &self.distances, settings.num_ffs, global_time);
        proof {
            lemma_defended_are_candidates(
                old(node_data).defended(),
                node_data.defended(),
                self.candidates(old(node_data)@),
                self.keys(),
                settings.num_ffs,
                global_time,
            );
        }
    }
}

/// Defends the undefended nodes that the fire can reach, those nearer to the
/// fire roots first.
#[derive(Debug)]
pub struct PriorityStrategy {
    graph: Arc<Graph>,
    distances: Vec<usize>,
}

impl PriorityStrategy {
    /// The distance of every node from the nearest fire root, once computed.
    pub closed spec fn distances(&self) -> Seq<usize> {
        self.distances@
    }

    /// Compute the distance of every node from the nearest of `roots`.
    pub fn compute_nodes_to_defend(&mut self, roots: &Vec<usize>, _settings: &OSMFSettings)
        requires
            old(self).graph().wf(),
            forall|i: int| 0 <= i < roots@.len()
                ==> (#[trigger] roots@[i]) < old(self).graph().num_nodes,
        ensures
            final(self).graph() == old(self).graph(),
            final(self).graph().is_root_distance_table(roots@, final(self).distances()),
    {
        self.distances = self.graph.root_distances(roots);
    }
}

impl Strategy for PriorityStrategy {
    /// The graph on which the strategy works.
    closed spec fn graph(&self) -> Arc<Graph> {
        self.graph
    }

    /// The graph is well-formed and every node has its distance.
    open spec fn ready(&self) -> bool {
        self.graph().wf() && self.distances().len() == self.graph().num_nodes
    }

    /// The nodes considered: the undefended nodes that the fire can reach.
    open spec fn candidates(&self, state: FireState) -> Set<usize> {
        Set::new(|v: usize| reachable_undefended(self.distances(), state, v))
    }

    /// The key of a node: its distance from the nearest fire root, which is
    /// the tick at which the fire would reach it.
    open spec fn keys(&self) -> Seq<usize> {
        self.distances()
    }

    /// Create the strategy for `graph`, with no distances computed yet.
    fn new(graph: Arc<Graph>) -> (strategy: Self) {
        Self { graph, distances: Vec::new() }
    }

    /// Defend at `global_time` the `settings.num_ffs` undefended reachable
    /// nodes that are nearest to the fire roots.
    fn execute(
        &self,
        settings: &OSMFSettings,
        node_data: &mut NodeDataStorage,
        global_time: TimeUnit,
    ) {
        let n: usize = self.distances.len();
        let mut eligible = clear_flags(n);
        let mut w: usize = 0;
        while w < n
            invariant
                n == self.distances().len(),
                w <= n,
                eligible@.len() == n,
                forall|u: int|
                    0 <= u < w ==> #[trigger] eligible@[u] == reachable_undefended(
                        self.distances(),
                        node_data@,
                        u as usize,
                    ),
                forall|u: int| w <= u < n ==> !#[trigger] eligible@[u],
            decreases n - w,
        {
            if self.distances[w] < INFINITE && node_data.is_undefended(&w) {
                eligible.set(w, true);
            }
            w += 1;
        }
        assert(flagged(eligible@) =~= self.candidates(node_data@));
        defend_most_urgent(node_data, &eligible, &self.distances, settings.num_ffs, global_time);
        proof {
            lemma_defended_are_candidates(
                old(node_data).defended(),
                node_data.defended(),
                self.candidates(old(node_data)@),
                self.keys(),
                settings.num_ffs,
                global_time,
            );
        }
    }
}

/// The containment strategy of a firefighter problem instance.
#[derive(Debug)]
pub enum OSMFStrategy {
    Greedy(GreedyStrategy),
    MinDistanceGroup(MinDistanceGroupStrategy),
    Priority(PriorityStrategy),
}

impl OSMFStrategy {
    /// The graph on which the strategy works.
    pub open spec fn graph(&self) -> Arc<Graph> {
        match self {
            OSMFStrategy::Greedy(strategy) => strategy.graph(),
            OSMFStrategy::MinDistanceGroup(strategy) => strategy.graph(),
            OSMFStrategy::Priority(strategy) => strategy.graph(),
        }
    }

    /// Both are the same kind of strategy, on the same graph.
    pub open spec fn same_kind(&self, other: &Self) -> bool {
        &&& self.graph() == other.graph()
        &&& match self {
            OSMFStrategy::Greedy(strategy) => other is Greedy,
            OSMFStrategy::MinDistanceGroup(strategy) => other is MinDistanceGroup,
            OSMFStrategy::Priority(strategy) => other is Priority,
        }
    }

    /// The strategy has what it needs for a round: its graph is well-formed,
    /// and a strategy that plans by distance has a distance for every node.
    pub open spec fn ready(&self) -> bool {
        match self {
            OSMFStrategy::Greedy(strategy) => strategy.ready(),
            OSMFStrategy::MinDistanceGroup(strategy) => strategy.ready(),
            OSMFStrategy::Priority(strategy) => strategy.ready(),
        }
    }

    /// A strategy that plans by distance holds the distance of every node
    /// from the nearest of `roots`.
    pub open spec fn planned_for(&self, roots: Seq<usize>) -> bool {
        match self {
            OSMFStrategy::Greedy(strategy) => true,
            OSMFStrategy::MinDistanceGroup(strategy) => strategy.graph().is_root_distance_table(
                roots,
                strategy.distances(),
            ),
            OSMFStrategy::Priority(strategy) => strategy.graph().is_root_distance_table(
                roots,
                strategy.distances(),
            ),
        }
    }

    /// The nodes that the strategy considers in a round.
    pub open spec fn candidates(&self, state: FireState) -> Set<usize> {
        match self {
            OSMFStrategy::Greedy(strategy) => strategy.candidates(state),
            OSMFStrategy::MinDistanceGroup(strategy) => strategy.candidates(state),
            OSMFStrategy::Priority(strategy) => strategy.candidates(state),
        }
    }

    /// The keys by which the strategy ranks the nodes.
    pub open spec fn keys(&self) -> Seq<usize> {
        match self {
            OSMFStrategy::Greedy(strategy) => strategy.keys(),
            OSMFStrategy::MinDistanceGroup(strategy) => strategy.keys(),
            OSMFStrategy::Priority(strategy) => strategy.keys(),
        }
    }

    /// Prepare the strategy once the fire roots are known.
    pub fn precompute(&mut self, roots: &Vec<usize>, settings: &OSMFSettings)
        requires
            old(self).graph().wf(),
            forall|i: int| 0 <= i < roots@.len()
                ==> (#[trigger] roots@[i]) < old(self).graph().num_nodes,
        ensures
            final(self).same_kind(old(self)),
            final(self).ready(),
            final(self).planned_for(roots@),
    {
        match self {
            OSMFStrategy::Greedy(_) => {},
            OSMFStrategy::MinDistanceGroup(strategy) => {
                strategy.compute_nodes_to_defend(roots, settings);
            },
            OSMFStrategy::Priority(strategy) => {
                strategy.compute_nodes_to_defend(roots, settings);
            },
        }
    }

    /// Defend at `global_time` the `settings.num_ffs` most urgent of the
    /// nodes that the strategy considers.
    pub fn execute(
        &self,
        settings: &OSMFSettings,
        node_data: &mut NodeDataStorage,
        global_time: TimeUnit,
    )
        requires
            self.ready(),
            old(node_data).wf(),
            old(node_data).ids_below(self.graph().num_nodes),
        ensures
            final(node_data).wf(),
            final(node_data).ids_below(self.graph().num_nodes),
            final(node_data).burning() == old(node_data).burning(),
            defends_most_urgent(
                old(node_data).defended(),
                final(node_data).defended(),
                self.candidates(old(node_data)@),
                self.keys(),
                settings.num_ffs,
                global_time,
            ),
    {
        match self {
            OSMFStrategy::Greedy(strategy) => strategy.execute(settings, node_data, global_time),
            OSMFStrategy::MinDistanceGroup(strategy) => strategy.execute(
                settings,
                node_data,
                global_time,
            ),
            OSMFStrategy::Priority(strategy) => strategy.execute(settings, node_data, global_time),
        }
    }
}

/// The name by which the settings call the greedy strategy.
pub open spec fn name_greedy() -> Seq<char> {
    "greedy"@
}

/// The name by which the settings call the minimum-distance-group strategy.
pub open spec fn name_min_distance_group() -> Seq<char> {
    "min_distance_group"@
}

/// The name by which the settings call the priority strategy.
pub open spec fn name_priority() -> Seq<char> {
    "priority"@
}

/// One of the three names by which the settings call a strategy.
pub open spec fn is_strategy_name(name: Seq<char>) -> bool {
    name == name_greedy() || name == name_min_distance_group() || name == name_priority()
}

impl OSMFStrategy {
    /// The strategy is the one that the settings call `name`.
    pub open spec fn named(&self, name: Seq<char>) -> bool {
        match self {
            OSMFStrategy::Greedy(strategy) => name == name_greedy(),
            OSMFStrategy::MinDistanceGroup(strategy) => name == name_min_distance_group(),
            OSMFStrategy::Priority(strategy) => name == name_priority(),
        }
    }

    /// The strategy that the settings call `name`, for `graph`; `None` for
    /// a name that is none of the three.
    pub fn from_name(name: &str, graph: Arc<Graph>) -> (strategy: Option<OSMFStrategy>)
        ensures
            match strategy {
                Some(strategy) => strategy.named(name@) && strategy.graph() == graph,
                None => !is_strategy_name(name@),
            },
    {
        proof {
            reveal_strlit("greedy");
            reveal_strlit("min_distance_group");
            reveal_strlit("priority");
        }
        let name = name.to_owned();
        if name == "greedy".to_owned() {
            Some(OSMFStrategy::Greedy(GreedyStrategy::new(graph)))
        } else if name == "min_distance_group".to_owned() {
            Some(OSMFStrategy::MinDistanceGroup(MinDistanceGroupStrategy::new(graph)))
        } else if name == "priority".to_owned() {
            Some(OSMFStrategy::Priority(PriorityStrategy::new(graph)))
        } else {
            None
        }
    }
}

} // verus!
