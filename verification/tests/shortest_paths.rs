use firefighter::binary_minheap::BinaryMinHeap;
use firefighter::graph::{Edge, Graph};
use firefighter::shortest_path::INFINITE;

fn graph_of(num_nodes: usize, edges: &[(usize, usize, usize)]) -> Graph {
    let mut text = format!("{}\n{}\n", num_nodes, edges.len());
    for i in 0..num_nodes {
        text.push_str(&format!("{} {} 0.0 0.0\n", i, i));
    }
    for (src, tgt, dist) in edges {
        text.push_str(&format!("{} {} {}\n", src, tgt, dist));
    }
    let graph = Graph::parse_graph(text.as_bytes()).unwrap();
    assert!(graph.is_well_formed());
    graph
}

fn brute_force(graph: &Graph, src: usize) -> Vec<usize> {
    let mut dist = vec![usize::MAX; graph.num_nodes];
    dist[src] = 0;
    for _ in 0..graph.num_nodes {
        for Edge { src, tgt, dist: w } in graph.edges.iter().copied() {
            if dist[src] != usize::MAX {
                if let Some(candidate) = dist[src].checked_add(w) {
                    if candidate < dist[tgt] {
                        dist[tgt] = candidate;
                    }
                }
            }
        }
    }
    dist
}

#[test]
fn dijkstra_on_path_graph() {
    let graph = graph_of(4, &[(0, 1, 2), (1, 2, 3), (2, 3, 1)]);
    assert_eq!(graph.run_dijkstra(0), vec![0, 2, 5, 6]);
    assert_eq!(graph.run_dijkstra(1), vec![INFINITE, 0, 3, 4]);
    assert_eq!(graph.run_dijkstra(3), vec![INFINITE, INFINITE, INFINITE, 0]);
}

#[test]
fn dijkstra_prefers_lighter_detour() {
    let graph = graph_of(4, &[(0, 1, 10), (0, 2, 1), (1, 3, 1), (2, 1, 2), (2, 3, 9)]);
    assert_eq!(graph.run_dijkstra(0), vec![0, 3, 1, 4]);
}

#[test]
fn dijkstra_source_is_zero_even_on_cycles_and_loops() {
    let graph = graph_of(3, &[(0, 0, 0), (0, 1, 0), (1, 0, 0), (1, 2, 4)]);
    assert_eq!(graph.run_dijkstra(0), vec![0, 0, 4]);
    assert_eq!(graph.run_dijkstra(2), vec![INFINITE, INFINITE, 0]);
}

#[test]
fn dijkstra_treats_overlong_paths_as_none() {
    let graph = graph_of(3, &[(0, 1, usize::MAX - 1), (1, 2, 5)]);
    assert_eq!(graph.run_dijkstra(0), vec![0, usize::MAX - 1, INFINITE]);
}

#[test]
fn dijkstra_matches_brute_force() {
    let mut state: u64 = 0x9e3779b97f4a7c15;
    let mut next = |bound: usize| {
        state ^= state << 13;
        state ^= state >> 7;
        state ^= state << 17;
        (state % bound as u64) as usize
    };
    for round in 0..40 {
        let n = 1 + next(8);
        let m = next(20);
        let mut edges: Vec<(usize, usize, usize)> =
            (0..m).map(|_| (next(n), next(n), next(10))).collect();
        edges.sort();
        let graph = graph_of(n, &edges);
        for src in 0..n {
            assert_eq!(graph.run_dijkstra(src), brute_force(&graph, src), "round {}", round);
        }
    }
}

#[test]
fn heap_pops_by_ascending_distance() {
    let distances = vec![5, 3, 8, 1, 9, 3];
    let mut heap = BinaryMinHeap::with_capacity(6);
    assert!(heap.is_empty());
    for node in [0, 1, 2, 3, 4, 5] {
        assert!(!heap.contains(node));
        heap.push(node, &distances);
        assert!(heap.contains(node));
    }
    assert!(!heap.contains(6));
    let mut popped = Vec::new();
    while !heap.is_empty() {
        let node = heap.pop(&distances);
        assert!(!heap.contains(node));
        popped.push(distances[node]);
    }
    assert_eq!(popped, vec![1, 3, 3, 5, 8, 9]);
}

#[test]
fn heap_decrease_key_moves_node_to_front() {
    let mut distances = vec![10, 20, 30, 40, 50];
    let mut heap = BinaryMinHeap::with_capacity(5);
    for node in 0..5 {
        heap.push(node, &distances);
    }
    distances[4] = 1;
    heap.decrease_key(4, &distances);
    assert_eq!(heap.pop(&distances), 4);
    distances[3] = 15;
    heap.decrease_key(3, &distances);
    assert_eq!(heap.pop(&distances), 0);
    assert_eq!(heap.pop(&distances), 3);
    assert_eq!(heap.pop(&distances), 1);
    assert_eq!(heap.pop(&distances), 2);
    assert!(heap.is_empty());
}
