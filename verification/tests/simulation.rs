use firefighter::graph::Graph;
use firefighter::node_data::{NodeData, NodeDataStorage, NodeState};
use firefighter::problem::{OSMFProblem, OSMFProblemError, OSMFSimulationResponse};
use firefighter::random::{draw_roots, take_candidate};
use firefighter::settings::OSMFSettings;
use firefighter::strategy::{
    GreedyStrategy, MinDistanceGroupStrategy, OSMFStrategy, PriorityStrategy, Strategy,
};
use std::sync::Arc;

fn graph_of(num_nodes: usize, edges: &[(usize, usize, usize)]) -> Arc<Graph> {
    let mut text = format!("# test graph\n\n{}\n{}\n", num_nodes, edges.len());
    for i in 0..num_nodes {
        text.push_str(&format!("{} {} 48.5 9.5\n", i, i));
    }
    for (src, tgt, dist) in edges {
        text.push_str(&format!("{} {} {}\n", src, tgt, dist));
    }
    let graph = Graph::parse_graph(text.as_bytes()).unwrap();
    assert!(graph.is_well_formed());
    Arc::new(graph)
}

fn path_graph() -> Arc<Graph> {
    graph_of(4, &[(0, 1, 2), (1, 2, 3), (2, 3, 1)])
}

/// Degrees: 0: 3, 1: 1, 2: 2, 3: 3, 4: 0, 5: 1, 6: 0.
/// Distances from node 0: 0, 1, 1, 5, 2, 2, 4.
fn town() -> Arc<Graph> {
    graph_of(
        7,
        &[
            (0, 1, 1),
            (0, 2, 1),
            (0, 3, 5),
            (1, 4, 1),
            (2, 4, 1),
            (2, 5, 1),
            (3, 0, 1),
            (3, 5, 1),
            (3, 6, 1),
            (5, 6, 2),
        ],
    )
}

fn settings(strategy_name: &str, num_roots: usize, num_ffs: usize, strategy_every: u64) -> OSMFSettings {
    OSMFSettings {
        graph_name: "test".to_string(),
        strategy_name: strategy_name.to_string(),
        num_roots,
        num_ffs,
        strategy_every,
    }
}

fn greedy(graph: &Arc<Graph>) -> OSMFStrategy {
    OSMFStrategy::Greedy(GreedyStrategy::new(graph.clone()))
}

fn min_distance_group(graph: &Arc<Graph>) -> OSMFStrategy {
    OSMFStrategy::MinDistanceGroup(MinDistanceGroupStrategy::new(graph.clone()))
}

fn priority(graph: &Arc<Graph>) -> OSMFStrategy {
    OSMFStrategy::Priority(PriorityStrategy::new(graph.clone()))
}

fn burning_ids(problem: &OSMFProblem) -> Vec<(usize, u64)> {
    problem.node_data().get_burning().iter().map(|nd| (nd.node_id, nd.time)).collect()
}

fn defended_ids(problem: &OSMFProblem, until: u64) -> Vec<(usize, u64)> {
    let mut all = Vec::new();
    for t in 0..=until {
        for id in problem.node_data().get_defended_at(&t) {
            all.push((id, t));
        }
    }
    all
}

#[test]
fn path_graph_timeline() {
    let graph = path_graph();
    let mut problem =
        OSMFProblem::with_roots(graph.clone(), settings("greedy", 1, 1, 100), greedy(&graph), vec![0]);
    assert_eq!(problem.global_time(), 0);
    assert!(problem.is_active());
    assert!(problem.node_data().is_root(&0));
    assert!(problem.node_data().is_burning_by(&0, &0));
    assert_eq!(burning_ids(&problem), vec![(0, 0)]);

    problem.exec_step();
    assert_eq!(problem.global_time(), 1);
    assert!(problem.node_data().is_undefended(&1));
    assert!(problem.is_active());

    problem.exec_step();
    assert!(!problem.node_data().is_undefended(&1));
    assert!(problem.node_data().is_burning_by(&1, &2));
    assert!(!problem.node_data().is_burning_by(&1, &1));
    assert!(!problem.node_data().is_root(&1));
    assert_eq!(burning_ids(&problem), vec![(0, 0), (1, 2)]);

    problem.exec_step();
    assert!(problem.node_data().is_undefended(&2));
    problem.exec_step();
    assert_eq!(problem.global_time(), 4);
    assert!(problem.node_data().is_undefended(&2));
    assert!(problem.is_active());

    problem.exec_step();
    assert!(problem.node_data().is_burning_by(&2, &5));
    assert!(!problem.node_data().is_burning_by(&2, &4));
    assert!(problem.node_data().is_undefended(&3));
    assert!(problem.is_active());

    problem.exec_step();
    assert_eq!(problem.global_time(), 6);
    assert_eq!(burning_ids(&problem), vec![(0, 0), (1, 2), (2, 5), (3, 6)]);
    assert!(!problem.is_active());

    problem.exec_step();
    assert_eq!(problem.global_time(), 7);
    assert!(!problem.is_active());
    assert_eq!(burning_ids(&problem), vec![(0, 0), (1, 2), (2, 5), (3, 6)]);
}

#[test]
fn simulate_runs_path_graph_to_the_end() {
    let graph = path_graph();
    let mut problem =
        OSMFProblem::with_roots(graph.clone(), settings("greedy", 1, 1, 100), greedy(&graph), vec![0]);
    problem.simulate();
    assert!(!problem.is_active());
    assert_eq!(
        problem.simulation_response(),
        OSMFSimulationResponse { nodes_burned: 4, nodes_defended: 0, nodes_total: 4, end_time: 6 }
    );
    problem.simulate();
    assert_eq!(problem.global_time(), 6);
}

#[test]
fn all_nodes_as_roots_is_inactive_at_once() {
    let graph = town();
    let problem = OSMFProblem::new(graph.clone(), settings("greedy", 7, 1, 1), greedy(&graph));
    assert!(!problem.is_active());
    assert_eq!(problem.global_time(), 0);
    assert_eq!(
        burning_ids(&problem),
        vec![(0, 0), (1, 0), (2, 0), (3, 0), (4, 0), (5, 0), (6, 0)]
    );
    for v in 0..7 {
        assert!(problem.node_data().is_root(&v));
    }
    assert_eq!(problem.node_data().count_burning_by(&0), 7);
    assert_eq!(problem.node_data().count_defended_by(&0), 0);
}

#[test]
fn new_draws_distinct_roots() {
    let graph = town();
    for _ in 0..50 {
        let problem = OSMFProblem::new(graph.clone(), settings("greedy", 3, 1, 1), greedy(&graph));
        let burning = burning_ids(&problem);
        assert_eq!(burning.len(), 3);
        for (id, time) in burning {
            assert!(id < 7);
            assert_eq!(time, 0);
        }
        assert_eq!(problem.simulation_response().nodes_burned, 3);
    }
}

#[test]
fn roots_without_neighbours_are_inactive_at_once() {
    let graph = path_graph();
    let problem =
        OSMFProblem::with_roots(graph.clone(), settings("greedy", 1, 1, 1), greedy(&graph), vec![3]);
    assert!(!problem.is_active());
}

#[test]
fn draw_roots_are_distinct_and_in_range() {
    for num_roots in 0..=10 {
        let mut roots = draw_roots(num_roots, 10);
        assert_eq!(roots.len(), num_roots);
        roots.sort();
        roots.dedup();
        assert_eq!(roots.len(), num_roots);
        assert!(roots.iter().all(|r| *r < 10));
    }
    let mut seen = [false; 4];
    for _ in 0..200 {
        seen[draw_roots(1, 4)[0]] = true;
    }
    assert_eq!(seen, [true; 4]);
}

#[test]
fn take_candidate_moves_last_into_place() {
    let mut candidates = vec![10, 11, 12, 13];
    assert_eq!(take_candidate(&mut candidates, 1), 11);
    assert_eq!(candidates, vec![10, 13, 12]);
    assert_eq!(take_candidate(&mut candidates, 2), 12);
    assert_eq!(candidates, vec![10, 13]);
    assert_eq!(take_candidate(&mut candidates, 0), 10);
    assert_eq!(take_candidate(&mut candidates, 0), 13);
    assert!(candidates.is_empty());
}

#[test]
fn greedy_defends_neighbour_with_most_edges() {
    let graph = town();
    let mut problem =
        OSMFProblem::with_roots(graph.clone(), settings("greedy", 1, 1, 1), greedy(&graph), vec![0]);
    problem.exec_step();
    assert_eq!(defended_ids(&problem, 1), vec![(3, 1)]);
    assert_eq!(burning_ids(&problem), vec![(0, 0), (1, 1), (2, 1)]);
    assert!(problem.is_active());
    problem.exec_step();
    assert_eq!(defended_ids(&problem, 2), vec![(3, 1), (5, 2)]);
    assert_eq!(burning_ids(&problem), vec![(0, 0), (1, 1), (2, 1), (4, 2)]);
    assert!(!problem.is_active());
    assert!(problem.node_data().is_undefended(&6));
    assert_eq!(
        problem.simulation_response(),
        OSMFSimulationResponse { nodes_burned: 4, nodes_defended: 2, nodes_total: 7, end_time: 2 }
    );
    let metadata = problem.sim_step_metadata_response(&1);
    assert_eq!(metadata.nodes_burned_by, 3);
    assert_eq!(metadata.nodes_defended_by, 1);
    assert_eq!(metadata.nodes_burned_at, vec![1, 2]);
    assert_eq!(metadata.nodes_defended_at, vec![3]);
    let metadata = problem.sim_step_metadata_response(&2);
    assert_eq!(metadata.nodes_burned_by, 4);
    assert_eq!(metadata.nodes_defended_by, 2);
    assert_eq!(metadata.nodes_burned_at, vec![4]);
    assert_eq!(metadata.nodes_defended_at, vec![5]);
    let metadata = problem.sim_step_metadata_response(&0);
    assert_eq!(metadata.nodes_burned_by, 1);
    assert_eq!(metadata.nodes_defended_by, 0);
    assert_eq!(metadata.nodes_burned_at, vec![0]);
    assert_eq!(metadata.nodes_defended_at, Vec::<usize>::new());
}

#[test]
fn greedy_with_two_defenders_breaks_ties_by_rank() {
    let graph = town();
    let mut problem =
        OSMFProblem::with_roots(graph.clone(), settings("greedy", 1, 2, 1), greedy(&graph), vec![0]);
    problem.simulate();
    assert_eq!(defended_ids(&problem, 5), vec![(2, 1), (3, 1), (4, 2)]);
    assert_eq!(burning_ids(&problem), vec![(0, 0), (1, 1)]);
    assert_eq!(problem.global_time(), 2);
}

#[test]
fn greedy_ties_go_to_smaller_id() {
    let graph = graph_of(4, &[(0, 1, 9), (0, 2, 9), (0, 3, 9)]);
    let mut problem =
        OSMFProblem::with_roots(graph.clone(), settings("greedy", 1, 1, 1), greedy(&graph), vec![0]);
    problem.exec_step();
    assert_eq!(defended_ids(&problem, 1), vec![(1, 1)]);
    problem.exec_step();
    assert_eq!(defended_ids(&problem, 2), vec![(1, 1), (2, 2)]);
    problem.exec_step();
    assert_eq!(defended_ids(&problem, 3), vec![(1, 1), (2, 2), (3, 3)]);
    assert!(!problem.is_active());
    problem.exec_step();
    assert_eq!(defended_ids(&problem, 4), vec![(1, 1), (2, 2), (3, 3)]);
}

#[test]
fn strategy_runs_only_at_its_cadence() {
    let graph = graph_of(4, &[(0, 1, 9), (0, 2, 9), (0, 3, 9)]);
    let mut problem =
        OSMFProblem::with_roots(graph.clone(), settings("greedy", 1, 1, 3), greedy(&graph), vec![0]);
    problem.exec_step();
    problem.exec_step();
    assert_eq!(defended_ids(&problem, 2), vec![]);
    problem.exec_step();
    assert_eq!(defended_ids(&problem, 3), vec![(1, 3)]);
    problem.exec_step();
    problem.exec_step();
    problem.exec_step();
    assert_eq!(defended_ids(&problem, 6), vec![(1, 3), (2, 6)]);
}

#[test]
fn defence_at_a_tick_blocks_fire_arriving_at_that_tick() {
    let graph = graph_of(2, &[(0, 1, 2)]);
    let mut problem =
        OSMFProblem::with_roots(graph.clone(), settings("greedy", 1, 1, 2), greedy(&graph), vec![0]);
    problem.simulate();
    assert_eq!(defended_ids(&problem, 2), vec![(1, 2)]);
    assert_eq!(burning_ids(&problem), vec![(0, 0)]);
    assert_eq!(problem.global_time(), 2);
    assert!(problem.node_data().is_defended_by(&1, &2));
    assert!(!problem.node_data().is_defended_by(&1, &1));
}

#[test]
fn min_distance_group_defends_one_band_per_round() {
    let graph = town();
    let mut problem = OSMFProblem::with_roots(
        graph.clone(),
        settings("min_distance_group", 1, 2, 1),
        min_distance_group(&graph),
        vec![0],
    );
    problem.exec_step();
    assert_eq!(defended_ids(&problem, 1), vec![(1, 1), (2, 1)]);
    assert!(problem.is_active());
    problem.exec_step();
    assert_eq!(defended_ids(&problem, 2), vec![(1, 1), (2, 1), (4, 2), (5, 2)]);
    problem.exec_step();
    assert_eq!(defended_ids(&problem, 3), vec![(1, 1), (2, 1), (4, 2), (5, 2), (6, 3)]);
    assert!(problem.is_active());
    problem.exec_step();
    assert_eq!(
        defended_ids(&problem, 4),
        vec![(1, 1), (2, 1), (4, 2), (5, 2), (6, 3), (3, 4)]
    );
    assert!(!problem.is_active());
    assert_eq!(burning_ids(&problem), vec![(0, 0)]);
}

#[test]
fn min_distance_group_with_one_defender() {
    let graph = town();
    let mut problem = OSMFProblem::with_roots(
        graph.clone(),
        settings("min_distance_group", 1, 1, 1),
        min_distance_group(&graph),
        vec![0],
    );
    problem.simulate();
    assert_eq!(defended_ids(&problem, 9), vec![(1, 1), (4, 2), (6, 3), (3, 4)]);
    assert_eq!(burning_ids(&problem), vec![(0, 0), (2, 1), (5, 2)]);
    assert_eq!(problem.global_time(), 4);
}

#[test]
fn priority_defends_nearest_nodes_across_bands() {
    let graph = town();
    let mut problem = OSMFProblem::with_roots(
        graph.clone(),
        settings("priority", 1, 2, 1),
        priority(&graph),
        vec![0],
    );
    problem.exec_step();
    assert_eq!(defended_ids(&problem, 1), vec![(1, 1), (2, 1)]);
    problem.exec_step();
    assert_eq!(defended_ids(&problem, 2), vec![(1, 1), (2, 1), (4, 2), (5, 2)]);
    problem.exec_step();
    assert_eq!(
        defended_ids(&problem, 3),
        vec![(1, 1), (2, 1), (4, 2), (5, 2), (3, 3), (6, 3)]
    );
    assert!(!problem.is_active());
    assert_eq!(burning_ids(&problem), vec![(0, 0)]);
}

#[test]
fn distance_strategies_ignore_unreachable_nodes() {
    let graph = graph_of(4, &[(0, 1, 5), (2, 3, 1)]);
    for strategy in [min_distance_group(&graph), priority(&graph)] {
        let mut problem =
            OSMFProblem::with_roots(graph.clone(), settings("any", 1, 3, 1), strategy, vec![0]);
        problem.simulate();
        assert_eq!(defended_ids(&problem, 3), vec![(1, 1)]);
        assert!(problem.node_data().is_undefended(&2));
        assert!(problem.node_data().is_undefended(&3));
        assert_eq!(problem.global_time(), 1);
    }
}

#[test]
fn strategies_are_noops_without_candidates() {
    let graph = path_graph();
    for strategy in [greedy(&graph), min_distance_group(&graph), priority(&graph)] {
        let mut problem =
            OSMFProblem::with_roots(graph.clone(), settings("any", 1, 2, 1), strategy, vec![3]);
        problem.exec_step();
        assert_eq!(defended_ids(&problem, 1), vec![]);
        assert_eq!(burning_ids(&problem), vec![(3, 0)]);
    }
}

#[test]
fn strategy_execute_on_bare_storage() {
    let graph = town();
    let strategy = GreedyStrategy::new(graph.clone());
    let mut storage = NodeDataStorage::new();
    storage.mark_burning(&vec![3], 0);
    strategy.execute(&settings("greedy", 1, 2, 1), &mut storage, 4);
    assert_eq!(storage.get_defended_at(&4), vec![0, 5]);
    assert_eq!(storage.get_burning_at(&0), vec![3]);
    strategy.execute(&settings("greedy", 1, 2, 1), &mut storage, 5);
    assert_eq!(storage.get_defended_at(&5), vec![6]);
    strategy.execute(&settings("greedy", 1, 2, 1), &mut storage, 6);
    assert_eq!(storage.get_defended_at(&6), Vec::<usize>::new());
}

#[test]
fn defended_nodes_never_burn() {
    let graph = town();
    let mut problem =
        OSMFProblem::with_roots(graph.clone(), settings("greedy", 1, 1, 1), greedy(&graph), vec![0]);
    let mut defended_so_far: Vec<usize> = Vec::new();
    for _ in 0..10 {
        problem.exec_step();
        let now = problem.global_time();
        defended_so_far.extend(problem.node_data().get_defended_at(&now));
        for id in &defended_so_far {
            assert!(problem.node_data().is_defended(id));
            assert!(!problem.node_data().is_burning(id));
            assert!(!problem.node_data().is_undefended(id));
        }
    }
}

#[test]
fn inactive_stays_inactive() {
    let graph = town();
    let mut problem =
        OSMFProblem::with_roots(graph.clone(), settings("greedy", 1, 1, 1), greedy(&graph), vec![0]);
    problem.simulate();
    assert!(!problem.is_active());
    let burning = burning_ids(&problem);
    for _ in 0..5 {
        problem.exec_step();
        assert!(!problem.is_active());
        assert_eq!(burning_ids(&problem), burning);
    }
}

#[test]
fn storage_queries() {
    let mut storage = NodeDataStorage::new();
    assert!(storage.is_undefended(&1));
    storage.mark_burning(&vec![5, 1, 5], 0);
    storage.mark_defended(&vec![2], 3);
    storage.mark_defended2(&[7, 4], 4);
    storage.mark_burning(&vec![3], 4);
    assert!(storage.is_root(&1) && storage.is_root(&5));
    assert!(!storage.is_root(&3) && !storage.is_root(&2) && !storage.is_root(&9));
    assert!(storage.is_burning(&3) && !storage.is_burning(&2));
    assert!(storage.is_defended(&2) && !storage.is_defended(&3));
    assert!(storage.is_burning_by(&3, &4) && storage.is_burning_by(&3, &5));
    assert!(!storage.is_burning_by(&3, &3) && !storage.is_burning_by(&2, &9));
    assert!(storage.is_defended_by(&2, &3) && !storage.is_defended_by(&2, &2));
    assert!(!storage.is_defended_by(&1, &9));
    for id in [1, 2, 3, 4, 5, 7] {
        assert!(!storage.is_undefended(&id));
    }
    for id in [0, 6, 8] {
        assert!(storage.is_undefended(&id));
        assert!(!storage.is_burning(&id) && !storage.is_defended(&id));
    }
    assert_eq!(storage.count_burning_by(&0), 2);
    assert_eq!(storage.count_burning_by(&3), 2);
    assert_eq!(storage.count_burning_by(&4), 3);
    assert_eq!(storage.count_defended_by(&2), 0);
    assert_eq!(storage.count_defended_by(&3), 1);
    assert_eq!(storage.count_defended_by(&100), 3);
    assert_eq!(storage.get_burning_at(&0), vec![1, 5]);
    assert_eq!(storage.get_burning_at(&4), vec![3]);
    assert_eq!(storage.get_burning_at(&1), Vec::<usize>::new());
    assert_eq!(storage.get_defended_at(&4), vec![4, 7]);
    assert_eq!(storage.get_defended_at(&3), vec![2]);
    let burning: Vec<NodeData> = storage.get_burning().into_iter().copied().collect();
    assert_eq!(
        burning,
        vec![
            NodeData { node_id: 1, time: 0 },
            NodeData { node_id: 3, time: 4 },
            NodeData { node_id: 5, time: 0 },
        ]
    );
    assert_eq!(storage.num_burning(), 3);
    assert_eq!(storage.num_defended(), 3);
    assert_eq!(storage.get_state_by(&3, &3), None);
    assert_eq!(storage.get_state_by(&3, &4), Some(NodeState::Burning));
    assert_eq!(storage.get_state_by(&2, &2), None);
    assert_eq!(storage.get_state_by(&2, &3), Some(NodeState::Defended));
    assert_eq!(storage.get_state_by(&0, &9), None);
}

#[test]
fn settings_validity() {
    assert!(settings("greedy", 1, 1, 1).is_valid());
    assert!(!settings("greedy", 0, 1, 1).is_valid());
    assert!(!settings("greedy", 1, 0, 1).is_valid());
    assert!(!settings("greedy", 1, 1, 0).is_valid());
}

#[test]
fn root_distances_take_the_nearest_root() {
    let graph = town();
    assert_eq!(graph.root_distances(&vec![0]), vec![0, 1, 1, 5, 2, 2, 4]);
    assert_eq!(graph.root_distances(&vec![0, 3]), vec![0, 1, 1, 0, 2, 1, 1]);
    assert_eq!(graph.root_distances(&vec![]), vec![usize::MAX; 7]);
    assert_eq!(
        graph.root_distances(&vec![4]),
        vec![usize::MAX, usize::MAX, usize::MAX, usize::MAX, 0, usize::MAX, usize::MAX]
    );
}

#[test]
fn strategy_from_name() {
    let graph = town();
    assert!(matches!(OSMFStrategy::from_name("greedy", graph.clone()), Some(OSMFStrategy::Greedy(_))));
    assert!(matches!(
        OSMFStrategy::from_name("min_distance_group", graph.clone()),
        Some(OSMFStrategy::MinDistanceGroup(_))
    ));
    assert!(matches!(
        OSMFStrategy::from_name("priority", graph.clone()),
        Some(OSMFStrategy::Priority(_))
    ));
    assert!(OSMFStrategy::from_name("Greedy", graph.clone()).is_none());
    assert!(OSMFStrategy::from_name("", graph.clone()).is_none());
}

#[test]
fn try_new_says_why_there_is_no_instance() {
    let graph = town();
    let problem = OSMFProblem::try_new(graph.clone(), settings("priority", 2, 1, 3)).unwrap();
    assert!(matches!(problem.strategy(), OSMFStrategy::Priority(_)));
    assert_eq!(problem.node_data().num_burning(), 2);
    assert_eq!(problem.settings().strategy_every, 3);
    assert_eq!(problem.graph().num_nodes, 7);
    assert_eq!(
        OSMFProblem::try_new(graph.clone(), settings("greedy", 8, 1, 1)).unwrap_err(),
        OSMFProblemError::TooManyRoots
    );
    assert_eq!(
        OSMFProblem::try_new(graph.clone(), settings("greedy", 1, 1, 0)).unwrap_err(),
        OSMFProblemError::NoStrategyCadence
    );
    assert_eq!(
        OSMFProblem::try_new(graph.clone(), settings("random", 1, 1, 1)).unwrap_err(),
        OSMFProblemError::UnknownStrategy
    );
    let unsorted = "2\n2\n0 0 1 1\n1 1 1 1\n1 0 1\n0 1 1\n";
    let unsorted = Arc::new(Graph::parse_graph(unsorted.as_bytes()).unwrap());
    assert_eq!(
        OSMFProblem::try_new(unsorted, settings("greedy", 9, 1, 0)).unwrap_err(),
        OSMFProblemError::GraphNotWellFormed
    );
}
