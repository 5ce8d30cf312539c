use graph_algorithms::bfs::breadth_first_search;
use graph_algorithms::dfs::depth_first_search;
use graph_algorithms::graph::{IDefiniteGraph, IGraph, IGraphEdgeMut, IGraphMut};
use graph_algorithms::undirected_graph::UndirectedGraph;

#[test]
fn undirected_graph_construction() {
    for i in 0..500 {
        println!("--- case {} ---", i);
        let mut graph = UndirectedGraph::new();

        for j in 1..i {
            graph.insert_node(j);
            assert_eq!(graph.len(), j);
        }

        for j in 1..i {
            graph.remove_node(j);
            assert_eq!(graph.len(), i - j - 1);
        }

        graph.insert_node(i);
        assert_eq!(graph.len(), 1);

        for j in 1..i {
            graph.insert_node(j);
            graph.insert_edge(j, i);
            assert_eq!(graph.len(), j + 1);
        }

        for j in 1..i {
            graph.remove_node(j);
            assert_eq!(graph.len(), i - j);
        }
        graph.remove_node(i);
        assert_eq!(graph.len(), 0);
    }
}

#[test]
fn undirected_graph_test_edges() {
    for i in 0..500 {
        println!("--- case {} ---", i);
        let mut graph = UndirectedGraph::new();

        for j in 1..i {
            graph.insert_node(j);
            assert_eq!(graph.len(), j);
        }

        for j in 1..i {
            graph.insert_edge(j, i - j);
        }

        for j in 1..i {
            let adj = graph.get_adj(&j);

            assert!(adj.contains(&(i - j)));
            assert_eq!(adj.len(), 1);
        }

        for j in 1..i / 2 {
            graph.remove_node(j);
            assert_eq!(graph.len(), i - j - 1);
        }

        for j in 1..i / 2 {
            let adj = graph.get_adj(&j);

            assert!(!adj.contains(&(i - j)));
            assert_eq!(adj.len(), 0);
        }

        let mut graph = UndirectedGraph::new();

        graph.insert_node(i);

        assert_eq!(graph.len(), 1);

        for j in 1..i {
            graph.insert_node(j);
            graph.insert_edge(j, i);
            assert_eq!(graph.len(), j + 1);
        }

        if i > 7 {
            for j in 1..i - 3 {
                graph.insert_edge(j, j + 3);
            }

            for j in 1..i - 7 {
                graph.insert_edge(j, j + 7);
            }

            for j in 1..i - 7 {
                let adj = graph.get_adj(&j);

                println!("{} -> {:?}", j, adj);

                assert!(adj.contains(&i));
                assert!(adj.contains(&(j + 3)));
                assert!(adj.contains(&(j + 7)));

                if j > 7 {
                    assert_eq!(adj.len(), 5);
                } else if j > 3 {
                    assert_eq!(adj.len(), 4);
                } else {
                    assert_eq!(adj.len(), 3);
                }
            }

            for j in 1..i - 3 {
                graph.remove_edge(j, j + 3);
            }

            for j in 1..i - 7 {
                let adj = graph.get_adj(&j);

                assert!(adj.contains(&i));
                assert!(!adj.contains(&(j + 3)));
                assert!(adj.contains(&(j + 7)));
                if j > 7 {
                    assert_eq!(adj.len(), 3);
                } else {
                    assert_eq!(adj.len(), 2);
                }
            }
            graph.remove_node(i);

            for j in 1..i - 7 {
                let adj = graph.get_adj(&j);

                assert!(!adj.contains(&i));
                assert!(!adj.contains(&(j + 3)));
                assert!(adj.contains(&(j + 7)));
                if j > 7 {
                    assert_eq!(adj.len(), 2);
                } else {
                    assert_eq!(adj.len(), 1);
                }
            }

            for j in 1..i {
                graph.remove_node(j);
                assert_eq!(graph.len(), i - j - 1);
            }
        }
    }
}

#[test]
fn undirected_graph_bfs_search() {
    for i in vec![0, 1, 2, 3] {
        println!("bfs test with {} layers", i);

        let mut graph = UndirectedGraph::new();

        let mut level = vec![];
        for m in 1..i + 1 {
            let mut new_level = vec![];
            for n in 0..m {
                graph.insert_node(m * m + n);
                for node in level.clone() {
                    graph.insert_edge(m * m + n, node);
                }
                new_level.push(m * m + n);
            }
            level = new_level;
        }

        let tree = breadth_first_search(graph.clone(), 1);
        println!("{:?}\n{:?}", graph, tree);
    }
}

#[test]
fn undirected_graph_dfs_search() {
    for i in vec![0, 1, 2, 3, 4, 5] {
        println!("dfs test with {} layers", i);

        let mut graph = UndirectedGraph::new();

        let mut level = vec![];
        for m in 1..i + 1 {
            let mut new_level = vec![];
            for n in 0..m {
                graph.insert_node(m * m + n);
                for node in level.clone() {
                    graph.insert_edge(m * m + n, node);
                }
                new_level.push(m * m + n);
            }
            level = new_level;
        }

        let (roots, order, cyclic) = depth_first_search(graph.clone());
        println!("Graph: {:?}\nOrder: {:?}\nRoots: {:?}", graph, order, roots);
        assert_eq!(cyclic, i > 1);
    }
}

#[test]
fn undirected_edges_need_both_ends() {
    let mut graph = UndirectedGraph::new();
    graph.insert_node(1i64);
    graph.insert_edge(1, 2);
    assert_eq!(graph.get_adj(&1).len(), 0);
    graph.insert_node(2);
    graph.insert_edge(1, 2);
    assert_eq!(graph.get_adj(&1), vec![2]);
    assert_eq!(graph.get_adj(&2), vec![1]);
    // re-inserting a node drops its edges at both ends
    graph.insert_node(2);
    assert_eq!(graph.get_adj(&1).len(), 0);
    assert_eq!(graph.get_adj(&2).len(), 0);
    let inner = graph.get_inner();
    assert_eq!(inner.len(), 2);
}
