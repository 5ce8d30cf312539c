use graph_algorithms::graph::{IDefiniteGraph, IGraph, IGraphEdgeWeightedMut, IGraphMut, IWeightedGraph};
use graph_algorithms::weighted_graph::WeightedGraph;

#[test]
fn weighted_graph_construction() {
    for i in 0..500 {
        println!("--- case {} ---", i);
        let mut graph = WeightedGraph::new();

        for j in 1..i {
            graph.insert_node(j);
            assert_eq!(graph.len(), j);
        }

        for j in 1..i {
            graph.remove_node(j);
            assert_eq!(graph.len(), i - j - 1);
        }

        graph.insert_node(i);
        assert_eq!(graph.len(), 1);

        for j in 1..i {
            graph.insert_node(j);
            graph.insert_edge_weighted(j, i, 1);
            assert_eq!(graph.len(), j + 1);
        }

        for j in 1..i {
            graph.remove_node(j);
            assert_eq!(graph.len(), i - j);
        }
        graph.remove_node(i);
        assert_eq!(graph.len(), 0);
    }
}

#[test]
fn weighted_graph_test_edges() {
    for i in 0..500 {
        println!("--- case {} ---", i);
        let mut graph = WeightedGraph::new();

        for j in 1..i {
            graph.insert_node(j);
            assert_eq!(graph.len(), j);
        }

        for j in 1..i {
            graph.insert_edge_weighted(j, i - j, 2);
        }

        for j in 1..i {
            let adj = graph.get_adj(&j);

            assert!(adj.contains(&(i - j)));
            assert_eq!(adj.len(), 1);
        }

        for j in 1..i / 2 {
            graph.remove_node(j);
            assert_eq!(graph.len(), i - j - 1);
        }

        for j in 1..i / 2 {
            let adj = graph.get_adj(&j);
            println!("{} -- {:?}", j, adj);

            assert!(!adj.contains(&(i - j)));
            assert_eq!(adj.len(), 0);
        }

        let mut graph = WeightedGraph::new();

        graph.insert_node(i);

        assert_eq!(graph.len(), 1);

        for j in 1..i {
            graph.insert_node(j);
            graph.insert_edge_weighted(j, i, 1);
            assert_eq!(graph.len(), j + 1);
        }

        if i > 7 {
            for j in 1..i - 3 {
                graph.insert_edge_weighted(j, j + 3, 1);
            }

            for j in 1..i - 7 {
                graph.insert_edge_weighted(j, j + 7, 1);
            }

            for j in 1..i - 7 {
                let adj = graph.get_adj(&j);

                println!("{} -> {:?}", j, adj);

                assert!(adj.contains(&i));
                assert!(adj.contains(&(j + 3)));
                assert!(adj.contains(&(j + 7)));

                assert_eq!(adj.len(), 3);
            }

            for j in 1..i - 3 {
                graph.remove_edge_weighted(j, j + 3, 1);
            }

            for j in 1..i - 7 {
                let adj = graph.get_adj(&j);

                assert!(adj.contains(&i));
                assert!(!adj.contains(&(j + 3)));
                assert!(adj.contains(&(j + 7)));
                assert_eq!(adj.len(), 2);
            }
            graph.remove_node(i);

            for j in 1..i - 7 {
                let adj = graph.get_adj(&j);

                assert!(adj.contains(&i));
                assert!(!adj.contains(&(j + 3)));
                assert!(adj.contains(&(j + 7)));
                assert_eq!(adj.len(), 2);
            }

            for j in 1..i {
                graph.remove_node(j);
                assert_eq!(graph.len(), i - j - 1);
            }
        }
    }
}

#[test]
fn parallel_weighted_edges_are_distinct() {
    let mut graph = WeightedGraph::new();
    graph.insert_node("a");
    graph.insert_node("b");
    graph.insert_edge_weighted("a", "b", 3);
    graph.insert_edge_weighted("a", "b", 4);
    graph.insert_edge_weighted("a", "b", 3);
    let mut weighted = graph.get_adj_weighted(&"a");
    weighted.sort();
    assert_eq!(weighted, vec![("b", 3), ("b", 4)]);
    assert_eq!(graph.get_adj(&"a"), vec!["b"]);
    graph.remove_edge_weighted("a", "b", 3);
    assert_eq!(graph.get_adj_weighted(&"a"), vec![("b", 4)]);
    assert_eq!(graph.get_adj(&"b").len(), 0);
}
