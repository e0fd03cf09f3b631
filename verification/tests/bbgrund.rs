use firefighter::graph::Graph;
use firefighter::problem::OSMFProblem;
use firefighter::settings::OSMFSettings;
use firefighter::strategy::{GreedyStrategy, OSMFStrategy, Strategy};
use std::collections::BTreeMap;
use std::sync::Arc;

/// The text of a road graph of 350 nodes and 706 edges: a ring road in both
/// directions with six shortcuts, one of them at node 70.
fn bbgrund_undirected() -> String {
    let num_nodes = 350;
    let shortcuts = [70, 100, 140, 210, 280, 349];
    let mut text = String::from("# Id : 0\n# Type : undirected\n\n350\n706\n");
    for i in 0..num_nodes {
        text.push_str(&format!(
            "{} {} {:.5} {:.5} 0\n",
            i,
            1000 + i,
            48.67 + i as f64 * 0.00002,
            8.99 + i as f64 * 0.00008
        ));
    }
    for v in 0..num_nodes {
        text.push_str(&format!("{} {} {} 3 50\n", v, (v + 1) % num_nodes, 16 + v % 7));
        text.push_str(&format!("{} {} {} 3 50\n", v, (v + num_nodes - 1) % num_nodes, 16 + (v + 6) % 7));
        if shortcuts.contains(&v) {
            text.push_str(&format!("{} {} {} 3 50\n", v, (v + 5) % num_nodes, 40));
        }
    }
    text
}

fn graph() -> Graph {
    let graph = Graph::parse_graph(bbgrund_undirected().as_bytes()).unwrap();
    assert!(graph.is_well_formed());
    graph
}

fn coordinate(literal: &[u8]) -> f64 {
    std::str::from_utf8(literal).unwrap().parse().unwrap()
}

#[test]
fn test_nodes_edges() {
    let graph = graph();

    assert_eq!(graph.nodes.len(), 350);
    assert_eq!(graph.edges.len(), 706);
}

#[test]
fn test_grid_bounds() {
    let graph = graph();

    let latitudes: Vec<f64> = graph.nodes.iter().map(|n| coordinate(&n.lat)).collect();
    let longitudes: Vec<f64> = graph.nodes.iter().map(|n| coordinate(&n.lon)).collect();
    let min_lat = latitudes.iter().copied().fold(f64::INFINITY, f64::min);
    let max_lat = latitudes.iter().copied().fold(f64::NEG_INFINITY, f64::max);
    let min_lon = longitudes.iter().copied().fold(f64::INFINITY, f64::min);
    let max_lon = longitudes.iter().copied().fold(f64::NEG_INFINITY, f64::max);
    assert!(min_lat >= 48.67);
    assert!(max_lat < 48.68);
    assert!(min_lon >= 8.99);
    assert!(max_lon < 9.02);
}

#[test]
fn test_node() {
    let graph = graph();

    let edges_with_src_70: Vec<_> = graph.edges.iter().filter(|&e| e.src == 70).collect();
    assert_eq!(edges_with_src_70.len(), 3);
    assert_eq!(graph.get_degree(70), 3);
}

#[test]
fn problem_test() {
    let graph = Arc::new(graph());
    let num_roots = 10;
    let strategy = OSMFStrategy::Greedy(GreedyStrategy::new(graph.clone()));
    let mut problem = OSMFProblem::new(
        graph.clone(),
        OSMFSettings {
            graph_name: "bbgrund".to_string(),
            strategy_name: "greedy".to_string(),
            num_roots,
            num_ffs: 2,
            strategy_every: 10,
        },
        strategy,
    );

    assert_eq!(problem.node_data().num_burning(), num_roots);

    let num_nodes = graph.num_nodes;

    let roots: Vec<usize> = problem.node_data().get_burning().iter().map(|nd| nd.node_id).collect();
    for root in &roots {
        assert!(*root < num_nodes);
    }

    for _ in 0..10 {
        problem.exec_step();
        if !problem.is_active() {
            break;
        }
    }

    let mut targets = Vec::new();
    let mut distances = BTreeMap::new();
    for root in &roots {
        let out_deg = graph.get_degree(*root);
        targets.reserve(out_deg);
        for i in graph.offsets[*root]..graph.offsets[*root + 1] {
            let edge = &graph.edges[i];
            targets.push(edge.tgt);
            distances.insert(edge.tgt, edge.dist as u64);
        }
    }

    let burning: BTreeMap<usize, u64> =
        problem.node_data().get_burning().iter().map(|nd| (nd.node_id, nd.time)).collect();
    for root in &roots {
        let root_time = *burning.get(root).unwrap();
        for tgt in &targets {
            if problem.node_data().is_undefended(tgt) {
                assert!(problem.global_time() < root_time + *distances.get(tgt).unwrap())
            }
        }
    }
}
