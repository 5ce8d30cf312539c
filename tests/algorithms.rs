use graph_algorithms::dag::dag;
use graph_algorithms::dfs::chart_forest;
use graph_algorithms::dijkstras::dijkstras;
use graph_algorithms::directed_graph::DirectedGraph;
use graph_algorithms::graph::{IGraph, IGraphEdgeMut, IGraphEdgeWeightedMut, IGraphMut, IWeightedGraph, IDefiniteGraph};
use graph_algorithms::prims::prims;
use graph_algorithms::weighted_graph::WeightedGraph;

fn print_chart(graph: WeightedGraph<i64>) {
    let chart = chart_forest(graph);
    for (root, tree) in chart.trees.iter() {
        println!("Root: {:?}\nTree: {:?}\nCyclic: {}\n", root, tree.topo, tree.cyclic);
    }
}

#[test]
fn test_dag() {
    for i in 0..20 {
        println!("=== Case {} ===\n", i);

        let mut graph = WeightedGraph::new();

        for n in 0..i {
            for m in 0..n {
                graph.insert_node(n * n + m);

                for b in 0..n - 1 {
                    graph.insert_edge_weighted((n - 1) * (n - 1) + b, n * n + m, b);
                }
            }
        }

        print_chart(graph.clone());

        let path = dag(graph.clone(), &1, &((i - 1) * (i - 1)));

        println!(
            "--- DAG pathfinder\nOrigin: {:?}\nTarget: {:?}\nPath: {:?}\n---\n",
            1,
            ((i - 1) * (i - 1)),
            path
        );

        println!("===");
    }
}

fn dijkstra_graph() -> WeightedGraph<&'static str> {
    let mut graph = WeightedGraph::new();

    graph.insert_node("A");
    graph.insert_node("B");
    graph.insert_node("C");
    graph.insert_node("D");
    graph.insert_node("E");
    graph.insert_node("F");
    graph.insert_node("G");

    graph.insert_edge_weighted("A", "C", 3);
    graph.insert_edge_weighted("A", "F", 2);

    graph.insert_edge_weighted("C", "A", 3);
    graph.insert_edge_weighted("C", "F", 2);
    graph.insert_edge_weighted("C", "E", 1);
    graph.insert_edge_weighted("C", "D", 4);

    graph.insert_edge_weighted("F", "A", 2);
    graph.insert_edge_weighted("F", "C", 2);
    graph.insert_edge_weighted("F", "E", 3);
    graph.insert_edge_weighted("F", "B", 6);
    graph.insert_edge_weighted("F", "G", 5);

    graph.insert_edge_weighted("E", "C", 1);
    graph.insert_edge_weighted("E", "F", 3);
    graph.insert_edge_weighted("E", "B", 2);

    graph.insert_edge_weighted("D", "C", 4);
    graph.insert_edge_weighted("D", "B", 1);

    graph.insert_edge_weighted("B", "D", 1);
    graph.insert_edge_weighted("B", "E", 2);
    graph.insert_edge_weighted("B", "F", 6);
    graph.insert_edge_weighted("B", "G", 2);

    graph.insert_edge_weighted("G", "F", 5);
    graph.insert_edge_weighted("G", "B", 2);
    graph
}

#[test]
fn test_dijkstras() {
    let graph = dijkstra_graph();

    let path = dijkstras(&graph, &"A", &"B");
    println!("{:?}", path);

    assert_eq!(path, Some(vec!["A", "C", "E", "B"]));
}

#[test]
fn test_prims() {
    let mut graph = WeightedGraph::new();

    graph.insert_node("A");
    graph.insert_node("B");
    graph.insert_node("C");
    graph.insert_node("D");
    graph.insert_node("E");
    graph.insert_node("F");
    graph.insert_node("G");

    graph.insert_edge_weighted("B", "A", 2);
    graph.insert_edge_weighted("B", "C", 4);
    graph.insert_edge_weighted("B", "E", 3);

    graph.insert_edge_weighted("A", "B", 2);
    graph.insert_edge_weighted("A", "C", 3);
    graph.insert_edge_weighted("A", "D", 3);

    graph.insert_edge_weighted("C", "A", 3);
    graph.insert_edge_weighted("C", "B", 4);
    graph.insert_edge_weighted("C", "E", 1);
    graph.insert_edge_weighted("C", "F", 6);

    graph.insert_edge_weighted("D", "A", 3);
    graph.insert_edge_weighted("D", "F", 7);

    graph.insert_edge_weighted("E", "B", 3);
    graph.insert_edge_weighted("E", "C", 1);
    graph.insert_edge_weighted("E", "F", 8);

    graph.insert_edge_weighted("F", "D", 7);
    graph.insert_edge_weighted("F", "C", 6);
    graph.insert_edge_weighted("F", "E", 8);
    graph.insert_edge_weighted("F", "G", 9);

    println!("prims");
    let (min_spanning_graph, total) = prims(&graph, "B");

    println!("{:?}\nTotal weight: {:?}", min_spanning_graph, total);

    assert_eq!(total, 24);
}

#[test]
fn dijkstras_unreachable_target_is_none() {
    let mut graph = dijkstra_graph();
    graph.insert_node("H");
    assert_eq!(dijkstras(&graph, &"A", &"H"), None);
    assert_eq!(dijkstras(&graph, &"A", &"A"), Some(vec!["A"]));
    assert_eq!(dijkstras(&graph, &"Z", &"Z"), Some(vec!["Z"]));
    assert_eq!(dijkstras(&graph, &"Z", &"A"), None);
}

#[test]
fn dijkstras_picks_the_lighter_of_parallel_edges() {
    let mut graph = WeightedGraph::new();
    for n in 0..4u32 {
        graph.insert_node(n);
    }
    graph.insert_edge_weighted(0, 1, 10);
    graph.insert_edge_weighted(0, 1, 1);
    graph.insert_edge_weighted(1, 3, 1);
    graph.insert_edge_weighted(0, 2, 1);
    graph.insert_edge_weighted(2, 3, 5);
    assert_eq!(dijkstras(&graph, &0, &3), Some(vec![0, 1, 3]));
}

fn path_weight(graph: &WeightedGraph<i64>, path: &[i64]) -> i64 {
    let mut total = 0;
    for k in 1..path.len() {
        let best = graph
            .get_adj_weighted(&path[k - 1])
            .iter()
            .filter(|e| e.0 == path[k])
            .map(|e| e.1)
            .min()
            .unwrap();
        total += best;
    }
    total
}

#[test]
fn dag_agrees_with_dijkstras() {
    let mut graph = WeightedGraph::new();
    for n in 0..6i64 {
        graph.insert_node(n);
    }
    graph.insert_edge_weighted(0, 1, 4);
    graph.insert_edge_weighted(0, 2, 1);
    graph.insert_edge_weighted(2, 1, 2);
    graph.insert_edge_weighted(1, 3, 1);
    graph.insert_edge_weighted(2, 3, 5);
    graph.insert_edge_weighted(3, 4, 3);
    for origin in 0..6i64 {
        for target in 0..6i64 {
            let a = dag(graph.clone(), &origin, &target);
            let b = dijkstras(&graph, &origin, &target);
            assert_eq!(a.is_some(), b.is_some());
            if let (Some(a), Some(b)) = (a, b) {
                assert_eq!(path_weight(&graph, &a), path_weight(&graph, &b));
            }
        }
    }
    assert_eq!(dag(graph.clone(), &0, &4), Some(vec![0, 2, 1, 3, 4]));
    assert_eq!(dag(graph.clone(), &4, &0), None);
    assert_eq!(dag(graph.clone(), &5, &0), None);
}

#[test]
fn prims_builds_a_spanning_tree_of_the_component() {
    let mut graph = WeightedGraph::new();
    for n in 0..5u64 {
        graph.insert_node(n);
    }
    for (a, b, w) in [(0u64, 1u64, 1i64), (1, 2, 2), (0, 2, 5), (2, 3, 1)] {
        graph.insert_edge_weighted(a, b, w);
        graph.insert_edge_weighted(b, a, w);
    }
    let (tree, total) = prims(&graph, 0);
    assert_eq!(total, 4);
    assert_eq!(tree.len(), 4);
    assert!(!tree.contains(&4));
    let mut edges = 0;
    for n in tree.get_all() {
        edges += tree.get_adj_weighted(&n).len();
    }
    assert_eq!(edges, 3);
}

#[test]
fn chart_forest_charts_each_tree() {
    let mut graph = DirectedGraph::new();
    for n in 0..5i32 {
        graph.insert_node(n);
    }
    graph.insert_edge(0, 1);
    graph.insert_edge(1, 2);
    graph.insert_edge(3, 4);
    graph.insert_edge(4, 3);
    let chart = chart_forest(graph);
    let mut seen = 0;
    for (root, tree) in chart.trees.iter() {
        assert_eq!(tree.topo[0], *root);
        seen += tree.topo.len();
        if tree.topo.contains(&3) {
            assert!(tree.cyclic);
        } else {
            assert!(!tree.cyclic);
        }
    }
    assert_eq!(seen, 5);
    assert!(chart.graph.contains(&0));
}

#[test]
fn dag_handles_negative_weights() {
    let mut graph = WeightedGraph::new();
    for n in 0..3i64 {
        graph.insert_node(n);
    }
    graph.insert_edge_weighted(0, 1, 2);
    graph.insert_edge_weighted(0, 2, 3);
    graph.insert_edge_weighted(2, 1, -2);
    assert_eq!(dag(graph.clone(), &0, &1), Some(vec![0, 2, 1]));
    assert_eq!(dag(graph.clone(), &0, &0), Some(vec![0]));
    assert_eq!(dag(graph, &7, &7), Some(vec![7]));
}

#[test]
fn prims_tree_is_connected_from_the_start() {
    let mut graph = WeightedGraph::new();
    for n in 0..4i32 {
        graph.insert_node(n);
    }
    graph.insert_edge_weighted(0, 1, 7);
    graph.insert_edge_weighted(0, 2, 1);
    graph.insert_edge_weighted(2, 1, 2);
    graph.insert_edge_weighted(1, 3, 4);
    let (tree, total) = prims(&graph, 0);
    assert_eq!(total, 7);
    let mut reached = vec![0];
    let mut i = 0;
    while i < reached.len() {
        for n in tree.get_adj(&reached[i]) {
            if !reached.contains(&n) {
                reached.push(n);
            }
        }
        i += 1;
    }
    reached.sort();
    assert_eq!(reached, vec![0, 1, 2, 3]);
}

#[test]
fn dijkstras_to_itself_is_the_lone_node() {
    let mut graph = WeightedGraph::new();
    graph.insert_node(1i64);
    graph.insert_node(2);
    graph.insert_edge_weighted(1, 2, 0);
    graph.insert_edge_weighted(2, 1, 0);
    assert_eq!(dijkstras(&graph, &1, &1), Some(vec![1]));
    assert_eq!(dijkstras(&graph, &1, &2), Some(vec![1, 2]));
}
