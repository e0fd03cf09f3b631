//! The firefighter problem: fire roots, ticks, containment and spreading.
use crate::fire::{
    burn_reached_nodes, frontier_exists, has_frontier, lemma_no_frontier_is_stable,
    lemma_spread_spares_defended, spread,
};
use crate::graph::Graph;
use crate::node_data::{
    ids_at, ids_by, lists_ids, marked, FireState, NodeData, NodeDataStorage, TimeUnit,
};
use crate::random::draw_roots;
use crate::settings::OSMFSettings;
use crate::strategy::{defends_most_urgent, is_strategy_name, OSMFStrategy};
use std::sync::Arc;
use vstd::prelude::*;

verus! {

/// Container for data about the simulation of a firefighter problem instance.
#[derive(Debug, Clone, Copy, PartialEq, Eq, Structural)]
pub struct OSMFSimulationResponse {
    pub nodes_burned: usize,
    pub nodes_defended: usize,
    pub nodes_total: usize,
    pub end_time: TimeUnit,
}

/// Container for data about a specific step of a firefighter simulation.
#[derive(Debug)]
pub struct OSMFSimulationStepMetadata {
    pub nodes_burned_by: usize,
    pub nodes_defended_by: usize,
    pub nodes_burned_at: Vec<usize>,
    pub nodes_defended_at: Vec<usize>,
}

/// Why no firefighter problem instance can be made of a graph and settings.
#[derive(Debug, Clone, Copy, PartialEq, Eq, Structural)]
pub enum OSMFProblemError {
    /// The edges of the graph are not grouped by source node, or an edge
    /// joins nodes that the graph does not have.
    GraphNotWellFormed,
    /// The settings ask for more fire roots than the graph has nodes.
    TooManyRoots,
    /// The settings ask for a round of the strategy every zero ticks.
    NoStrategyCadence,
    /// The settings name no strategy that there is.
    UnknownStrategy,
}

/// Another handle to the graph behind `graph`, made with
/// `std::sync::Arc::clone`, which returns a pointer to the same allocation:
/// both handles hold the same graph.
#[verifier::external_body]
fn share(graph: &Arc<Graph>) -> (shared: Arc<Graph>)
    ensures
        shared == *graph,
{
    Arc::clone(graph)
}

/// A firefighter problem instance.
#[derive(Debug)]
pub struct OSMFProblem {
    graph: Arc<Graph>,
    settings: OSMFSettings,
    strategy: OSMFStrategy,
    node_data: NodeDataStorage,
    global_time: TimeUnit,
    is_active: bool,
}

impl OSMFProblem {
    /// The graph of the instance.
    pub closed spec fn spec_graph(&self) -> &Arc<Graph> {
        &self.graph
    }

    /// The settings of the instance.
    pub closed spec fn spec_settings(&self) -> &OSMFSettings {
        &self.settings
    }

    /// The containment strategy of the instance.
    pub closed spec fn spec_strategy(&self) -> &OSMFStrategy {
        &self.strategy
    }

    /// The record of burning and defended nodes.
    pub closed spec fn spec_node_data(&self) -> &NodeDataStorage {
        &self.node_data
    }

    /// The number of ticks that have passed.
    pub closed spec fn spec_global_time(&self) -> TimeUnit {
        self.global_time
    }

    /// Whether the fire can still spread.
    pub closed spec fn spec_is_active(&self) -> bool {
        self.is_active
    }

    /// The burning and the defended nodes.
    pub open spec fn state(&self) -> FireState {
        self.node_data()@
    }

    /// The parts of the instance fit together: graph, strategy, settings and
    /// node data are well-formed and speak of the same graph.
    pub open spec fn consistent(&self) -> bool {
        &&& self.graph().wf()
        &&& self.strategy().graph() == *self.graph()
        &&& self.strategy().ready()
        &&& self.settings().strategy_every > 0
        &&& self.state().wf()
        &&& self.state().ids_below(self.graph().num_nodes)
    }

    /// The instance is consistent, and it is active exactly as long as some
    /// burning node has an undefended neighbour.
    pub open spec fn wf(&self) -> bool {
        &&& self.consistent()
        &&& self.is_active() == has_frontier(&**self.graph(), self.state())
    }

    /// The instance is as it was made for the fire roots `roots`: these burn
    /// since tick 0, nothing else burns, nothing is defended, no tick has
    /// passed, and the strategy is prepared for these roots.
    pub open spec fn started_with(&self, roots: Seq<usize>) -> bool {
        &&& self.global_time() == 0
        &&& self.state().burning == marked(Map::<usize, NodeData>::empty(), roots, 0)
        &&& self.state().defended == Map::<usize, NodeData>::empty()
        &&& self.strategy().planned_for(roots)
    }

    /// What the strategy does to the defended nodes at `time`: at its cadence
    /// it defends the most urgent of its candidates, else nothing.
    pub open spec fn contained(&self, defended: Map<usize, NodeData>, time: TimeUnit) -> bool {
        if time % self.settings().strategy_every == 0 {
            defends_most_urgent(
                self.state().defended,
                defended,
                self.strategy().candidates(self.state()),
                self.strategy().keys(),
                self.settings().num_ffs,
                time,
            )
        } else {
            defended == self.state().defended
        }
    }

    /// One tick leads from this instance to `next`: the time advances, the
    /// strategy defends, then the fire spreads past what is defended by now,
    /// and the activity is determined anew.
    pub open spec fn steps_to(&self, next: &Self) -> bool {
        let time = (self.global_time() + 1) as TimeUnit;
        let contained = FireState { burning: self.state().burning, defended: next.state().defended };
        &&& next.graph() == self.graph()
        &&& next.settings() == self.settings()
        &&& next.strategy() == self.strategy()
        &&& next.global_time() == time
        &&& self.contained(next.state().defended, time)
        &&& next.state().burning == spread(&**self.graph(), contained, time)
        &&& next.is_active() == has_frontier(&**self.graph(), next.state())
    }

    /// A node that is defended stays defended, with its record unchanged, and
    /// does not burn after the next tick.
    pub proof fn lemma_defended_never_burn(&self, next: &Self, node_id: usize)
        requires
            self.consistent(),
            self.steps_to(next),
            self.state().defended.contains_key(node_id),
        ensures
            next.state().defended.contains_key(node_id),
            next.state().defended[node_id] == self.state().defended[node_id],
            !next.state().burning.contains_key(node_id),
    {
        let time = (self.global_time() + 1) as TimeUnit;
        let contained = FireState { burning: self.state().burning, defended: next.state().defended };
        lemma_spread_spares_defended(&**self.graph(), contained, time, node_id);
    }

    /// A node that burns keeps burning, with its record unchanged.
    pub proof fn lemma_burning_keep_burning(&self, next: &Self, node_id: usize)
        requires
            self.steps_to(next),
            self.state().burning.contains_key(node_id),
        ensures
            next.state().burning.contains_key(node_id),
            next.state().burning[node_id] == self.state().burning[node_id],
    {
    }

    /// Once no burning node has an undefended neighbour, the instance is
    /// inactive, and a tick leaves it inactive and burns no further node.
    pub proof fn lemma_inactive_stays_inactive(&self, next: &Self)
        requires
            self.wf(),
            !has_frontier(&**self.graph(), self.state()),
            self.steps_to(next),
        ensures
            !self.is_active(),
            !next.is_active(),
            !has_frontier(&**next.graph(), next.state()),
            next.state().burning == self.state().burning,
    {
        let time = (self.global_time() + 1) as TimeUnit;
        lemma_no_frontier_is_stable(&**self.graph(), self.state(), next.state().defended, time);
        assert(next.state() == (FireState {
            burning: next.state().burning,
            defended: next.state().defended,
        }));
    }

    /// Through a run, a node that is defended at one tick is defended and
    /// does not burn at any later tick.
    pub proof fn lemma_defended_never_burn_later(
        run: Seq<OSMFProblem>,
        from: int,
        to: int,
        node_id: usize,
    )
        requires
            is_run(run),
            0 <= from <= to < run.len(),
            run[from].state().defended.contains_key(node_id),
        ensures
            run[to].state().defended.contains_key(node_id),
            !run[to].state().burning.contains_key(node_id),
        decreases to - from,
    {
        if from < to {
            Self::lemma_defended_never_burn_later(run, from, to - 1, node_id);
            assert(run[to - 1].steps_to(&run[to - 1 + 1]));
            run[to - 1].lemma_defended_never_burn(&run[to], node_id);
        } else {
            assert(run[from].wf());
        }
    }

    /// Through a run, an instance that is inactive at one tick is inactive at
    /// every later tick, and no further node burns.
    pub proof fn lemma_inactive_ever_after(run: Seq<OSMFProblem>, from: int, to: int)
        requires
            is_run(run),
            0 <= from <= to < run.len(),
            !run[from].is_active(),
        ensures
            !run[to].is_active(),
            run[to].state().burning == run[from].state().burning,
        decreases to - from,
    {
        if from < to {
            Self::lemma_inactive_ever_after(run, from, to - 1);
            assert(run[to - 1].wf());
            assert(run[to - 1].steps_to(&run[to - 1 + 1]));
            run[to - 1].lemma_inactive_stays_inactive(&run[to]);
        }
    }

    /// Where the fire starts at as many distinct nodes as the graph has,
    /// every node burns from tick 0 on and the instance is inactive.
    pub proof fn lemma_all_roots_burn_everything(&self, roots: Seq<usize>)
        requires
            self.wf(),
            self.started_with(roots),
            roots.no_duplicates(),
            roots.len() == self.graph().num_nodes,
            forall|i: int| 0 <= i < roots.len() ==> (#[trigger] roots[i]) < self.graph().num_nodes,
        ensures
            forall|v: usize|
                v < self.graph().num_nodes ==> #[trigger] self.state().burning.contains_key(v)
                    && self.state().burning[v] == (NodeData { node_id: v, time: 0 }),
            !self.is_active(),
    {
        let n = self.graph().num_nodes;
        let below = Set::new(|v: usize| v < n);
        crate::binary_minheap::lemma_below_is_finite(n as nat);
        roots.unique_seq_to_set();
        assert(roots.to_set().subset_of(below)) by {
            assert forall|v: usize| roots.to_set().contains(v) implies below.contains(v) by {
                let i = choose|i: int| 0 <= i < roots.len() && roots[i] == v;
                assert(roots[i] < n);
            }
        }
        vstd::set_lib::lemma_subset_equality(roots.to_set(), below);
        assert forall|v: usize| v < n implies #[trigger] self.state().burning.contains_key(v)
            && self.state().burning[v] == (NodeData { node_id: v, time: 0 }) by {
            assert(below.contains(v));
            assert(roots.to_set().contains(v));
            assert(roots.contains(v));
        }
        if has_frontier(&**self.graph(), self.state()) {
            let e = crate::fire::lemma_threat_at_frontier(&**self.graph(), self.state());
            assert(self.graph().edges@[e].tgt < n);
        }
    }

    /// The graph of the instance.
    #[verifier::when_used_as_spec(spec_graph)]
    pub fn graph(&self) -> (graph: &Arc<Graph>)
        ensures
            graph == self.spec_graph(),
    {
        &self.graph
    }

    /// The settings of the instance.
    #[verifier::when_used_as_spec(spec_settings)]
    pub fn settings(&self) -> (settings: &OSMFSettings)
        ensures
            settings == self.spec_settings(),
    {
        &self.settings
    }

    /// The containment strategy of the instance.
    #[verifier::when_used_as_spec(spec_strategy)]
    pub fn strategy(&self) -> (strategy: &OSMFStrategy)
        ensures
            strategy == self.spec_strategy(),
    {
        &self.strategy
    }

    /// The record of burning and defended nodes.
    #[verifier::when_used_as_spec(spec_node_data)]
    pub fn node_data(&self) -> (node_data: &NodeDataStorage)
        ensures
            node_data == self.spec_node_data(),
    {
        &self.node_data
    }

    /// The number of ticks that have passed.
    #[verifier::when_used_as_spec(spec_global_time)]
    pub fn global_time(&self) -> (time: TimeUnit)
        ensures
            time == self.spec_global_time(),
    {
        self.global_time
    }

    /// Can the fire still spread?
    #[verifier::when_used_as_spec(spec_is_active)]
    pub fn is_active(&self) -> (active: bool)
        ensures
            active == self.spec_is_active(),
    {
        self.is_active
    }

    /// Create a firefighter problem instance whose fire starts at `roots`.
    pub fn with_roots(
        graph: Arc<Graph>,
        settings: OSMFSettings,
        strategy: OSMFStrategy,
        roots: Vec<usize>,
    ) -> (problem: Self)
        requires
            graph.wf(),
            strategy.graph() == graph,
            settings.strategy_every > 0,
            forall|i: int| 0 <= i < roots@.len() ==> (#[trigger] roots@[i]) < graph.num_nodes,
        ensures
            problem.wf(),
            problem.graph() == graph,
            problem.settings() == settings,
            problem.strategy().same_kind(&strategy),
            problem.started_with(roots@),
    {
        let mut strategy = strategy;
        let mut node_data = NodeDataStorage::new();
        node_data.mark_burning(&roots, 0);
        proof {
            assert forall|k: usize| #[trigger] node_data@.burning.contains_key(k) implies k
                < graph.num_nodes by {
                let i = choose|i: int| 0 <= i < roots@.len() && roots@[i] == k;
                assert(roots@[i] < graph.num_nodes);
            }
            assert(node_data@.ids_below(graph.num_nodes));
        }
        strategy.precompute(&roots, &settings);
        let is_active = frontier_exists(&graph, &node_data);
        Self { graph, settings, strategy, node_data, global_time: 0, is_active }
    }

    /// Create a new firefighter problem instance. The fire starts at
    /// `settings.num_roots` distinct nodes drawn at random.
    pub fn new(graph: Arc<Graph>, settings: OSMFSettings, strategy: OSMFStrategy) -> (problem: Self)
        requires
            graph.wf(),
            strategy.graph() == graph,
            settings.strategy_every > 0,
            settings.num_roots <= graph.num_nodes,
        ensures
            problem.wf(),
            problem.graph() == graph,
            problem.settings() == settings,
            problem.strategy().same_kind(&strategy),
            exists|roots: Seq<usize>|
                {
                    &&& roots.len() == settings.num_roots
                    &&& roots.no_duplicates()
                    &&& forall|i: int| 0 <= i < roots.len()
                        ==> (#[trigger] roots[i]) < graph.num_nodes
                    &&& #[trigger] problem.started_with(roots)
                },
    {
        let roots = Self::gen_fire_roots(&graph, &settings);
        let ghost drawn = roots@;
        let problem = Self::with_roots(graph, settings, strategy, roots);
        assert(problem.started_with(drawn));
        problem
    }

    /// Create a new firefighter problem instance with the strategy that the
    /// settings name, or say why there is none. The fire starts at
    /// `settings.num_roots` distinct nodes drawn at random.
    pub fn try_new(graph: Arc<Graph>, settings: OSMFSettings) -> (made: Result<
        Self,
        OSMFProblemError,
    >)
        ensures
            match made {
                Ok(problem) => {
                    &&& graph.wf()
                    &&& settings.num_roots <= graph.num_nodes
                    &&& settings.strategy_every > 0
                    &&& problem.wf()
                    &&& problem.graph() == graph
                    &&& problem.settings() == settings
                    &&& problem.strategy().named(settings.strategy_name@)
                    &&& exists|roots: Seq<usize>|
                        {
                            &&& roots.len() == settings.num_roots
                            &&& roots.no_duplicates()
                            &&& forall|i: int|
                                0 <= i < roots.len() ==> (#[trigger] roots[i]) < graph.num_nodes
                            &&& #[trigger] problem.started_with(roots)
                        }
                },
                Err(OSMFProblemError::GraphNotWellFormed) => !graph.wf(),
                Err(OSMFProblemError::TooManyRoots) => graph.wf() && settings.num_roots
                    > graph.num_nodes,
                Err(OSMFProblemError::NoStrategyCadence) => graph.wf() && settings.num_roots
                    <= graph.num_nodes && settings.strategy_every == 0,
                Err(OSMFProblemError::UnknownStrategy) => graph.wf() && settings.num_roots
                    <= graph.num_nodes && settings.strategy_every > 0 && !is_strategy_name(
                    settings.strategy_name@,
                ),
            },
    {
        if !graph.is_well_formed() {
            return Err(OSMFProblemError::GraphNotWellFormed);
        }
        if settings.num_roots > graph.num_nodes {
            return Err(OSMFProblemError::TooManyRoots);
        }
        if settings.strategy_every == 0 {
            return Err(OSMFProblemError::NoStrategyCadence);
        }
        match OSMFStrategy::from_name(settings.strategy_name.as_str(), share(&graph)) {
            Some(strategy) => {
                let problem = Self::new(graph, settings, strategy);
                Ok(problem)
            },
            None => Err(OSMFProblemError::UnknownStrategy),
        }
    }

    /// Generate `settings.num_roots` fire roots: distinct nodes of `graph`.
    pub fn gen_fire_roots(graph: &Graph, settings: &OSMFSettings) -> (roots: Vec<usize>)
        requires
            settings.num_roots <= graph.num_nodes,
        ensures
            roots@.len() == settings.num_roots,
            roots@.no_duplicates(),
            forall|i: int| 0 <= i < roots@.len() ==> (#[trigger] roots@[i]) < graph.num_nodes,
    {
        draw_roots(settings.num_roots, graph.num_nodes)
    }

    /// Spread the fire to all undefended nodes that it has reached by now: a
    /// node catches fire once a burning neighbour has burnt for as many ticks
    /// as the edge between them weighs. Defended nodes remain defended.
    pub fn spread_fire(&mut self)
        requires
            old(self).consistent(),
        ensures
            final(self).wf(),
            final(self).graph() == old(self).graph(),
            final(self).settings() == old(self).settings(),
            final(self).strategy() == old(self).strategy(),
            final(self).global_time() == old(self).global_time(),
            final(self).state().defended == old(self).state().defended,
            final(self).state().burning == spread(
                &**old(self).graph(),
                old(self).state(),
                old(self).global_time(),
            ),
            forall|v: usize|
                old(self).state().defended.contains_key(v)
                    ==> !final(self).state().burning.contains_key(v),
    {
        burn_reached_nodes(&self.graph, &mut self.node_data, self.global_time);
        self.is_active = frontier_exists(&self.graph, &self.node_data);
        proof {
            assert forall|v: usize|
                old(self).state().defended.contains_key(
                    v,
                ) implies !self.state().burning.contains_key(v) by {
                lemma_spread_spares_defended(
                    &**old(self).graph(),
                    old(self).state(),
                    old(self).global_time(),
                    v,
                );
            }
        }
    }

    /// Execute the containment strategy if it is due at the current tick.
    pub fn contain_fire(&mut self)
        requires
            old(self).consistent(),
        ensures
            final(self).consistent(),
            final(self).graph() == old(self).graph(),
            final(self).settings() == old(self).settings(),
            final(self).strategy() == old(self).strategy(),
            final(self).global_time() == old(self).global_time(),
            final(self).is_active() == old(self).is_active(),
            final(self).state().burning == old(self).state().burning,
            old(self).contained(final(self).state().defended, old(self).global_time()),
    {
        if self.global_time % self.settings.strategy_every == 0 {
            self.strategy.execute(&self.settings, &mut self.node_data, self.global_time);
        }
    }

    /// Execute one time step in the firefighter problem. That is, advance the
    /// time, execute the containment strategy, spread the fire and determine
    /// whether the fire can still spread.
    pub fn exec_step(&mut self)
        requires
            old(self).wf(),
            old(self).global_time() < TimeUnit::MAX,
        ensures
            final(self).wf(),
            old(self).steps_to(final(self)),
            forall|v: usize|
                old(self).state().defended.contains_key(v)
                    ==> final(self).state().defended.contains_key(v)
                    && !final(self).state().burning.contains_key(v),
            !old(self).is_active() ==> !final(self).is_active() && final(self).state().burning
                == old(self).state().burning,
    {
        self.global_time += 1;
        self.contain_fire();
        let ghost contained = self.state();
        self.spread_fire();
        proof {
            assert(contained == (FireState {
                burning: old(self).state().burning,
                defended: self.state().defended,
            }));
            assert forall|v: usize| old(self).state().defended.contains_key(v)
                implies self.state().defended.contains_key(v)
                && !self.state().burning.contains_key(v) by {
                old(self).lemma_defended_never_burn(&*self, v);
            }
            if !old(self).is_active() {
                old(self).lemma_inactive_stays_inactive(&*self);
            }
        }
    }

    /// Simulate the firefighter problem until the fire cannot spread any
    /// more, or until the clock cannot advance.
    pub fn simulate(&mut self)
        requires
            old(self).wf(),
        ensures
            final(self).wf(),
            !final(self).is_active() || final(self).global_time() == TimeUnit::MAX,
            exists|run: Seq<OSMFProblem>|
                {
                    &&& #[trigger] is_run(run)
                    &&& run.first() == *old(self)
                    &&& run.last() == *final(self)
                },
            forall|v: usize|
                old(self).state().defended.contains_key(v) ==> final(self).state().defended.contains_key(v)
                    && !final(self).state().burning.contains_key(v),
    {
        let ghost mut run: Seq<OSMFProblem> = seq![*self];
        while self.is_active && self.global_time < TimeUnit::MAX
            invariant
                self.wf(),
                is_run(run),
                run.first() == *old(self),
                run.last() == *self,
            decreases TimeUnit::MAX - self.global_time,
        {
            let ghost before = *self;
            self.exec_step();
            proof {
                let longer = run.push(*self);
                assert forall|i: int| 0 <= i < longer.len() - 1
                    implies (#[trigger] longer[i]).is_active()
                    && longer[i].global_time() < TimeUnit::MAX && longer[i].steps_to(
                    &longer[i + 1],
                ) by {
                    if i < run.len() - 1 {
                        assert(run[i].steps_to(&run[i + 1]));
                    }
                }
                assert forall|i: int| 0 <= i < longer.len() implies (#[trigger] longer[i]).wf() by {
                    if i < run.len() {
                        assert(run[i].wf());
                    }
                }
                run = longer;
            }
        }
        proof {
            assert forall|v: usize| old(self).state().defended.contains_key(v)
                implies self.state().defended.contains_key(v)
                && !self.state().burning.contains_key(v) by {
                Self::lemma_defended_never_burn_later(run, 0, run.len() - 1, v);
            }
        }
    }

    /// Generate the simulation response for this firefighter problem
    /// instance: how many nodes burn, how many are defended, how many there
    /// are, and the current tick.
    pub fn simulation_response(&self) -> (response: OSMFSimulationResponse)
        ensures
            response.nodes_burned == self.state().burning.dom().len(),
            response.nodes_defended == self.state().defended.dom().len(),
            response.nodes_total == self.graph().num_nodes,
            response.end_time == self.global_time(),
    {
        OSMFSimulationResponse {
            nodes_burned: self.node_data.num_burning(),
            nodes_defended: self.node_data.num_defended(),
            nodes_total: self.graph.num_nodes,
            end_time: self.global_time,
        }
    }

    /// Generate the metadata of the tick `time`: how many nodes burnt and how
    /// many were defended by then, and which caught fire or were defended at
    /// that very tick.
    pub fn sim_step_metadata_response(&self, time: &TimeUnit) -> (metadata:
        OSMFSimulationStepMetadata)
        ensures
            metadata.nodes_burned_by == ids_by(self.state().burning, *time).len(),
            metadata.nodes_defended_by == ids_by(self.state().defended, *time).len(),
            lists_ids(metadata.nodes_burned_at@, ids_at(self.state().burning, *time)),
            lists_ids(metadata.nodes_defended_at@, ids_at(self.state().defended, *time)),
    {
        OSMFSimulationStepMetadata {
            nodes_burned_by: self.node_data.count_burning_by(time),
            nodes_defended_by: self.node_data.count_defended_by(time),
            nodes_burned_at: self.node_data.get_burning_at(time),
            nodes_defended_at: self.node_data.get_defended_at(time),
        }
    }
}

/// Every instance of `run` is well-formed; every one but the last is active,
/// its clock can advance, and one tick leads from it to the next.
pub open spec fn is_run(run: Seq<OSMFProblem>) -> bool {
    &&& run.len() >= 1
    &&& forall|i: int| 0 <= i < run.len() ==> (#[trigger] run[i]).wf()
    &&& forall|i: int|
        0 <= i < run.len() - 1 ==> (#[trigger] run[i]).is_active() && run[i].global_time()
            < TimeUnit::MAX && run[i].steps_to(&run[i + 1])
}

} // verus!
