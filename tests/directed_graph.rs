use graph_algorithms::bfs::breadth_first_search;
use graph_algorithms::dfs::depth_first_search;
use graph_algorithms::directed_graph::DirectedGraph;
use graph_algorithms::graph::{IDefiniteGraph, IGraph, IGraphEdgeMut, IGraphMut};
use graph_algorithms::undirected_graph::UndirectedGraph;

#[test]
fn directed_graph_construction() {
    for i in 0..500 {
        println!("--- case {} ---", i);
        let mut graph = DirectedGraph::new();

        for j in 1..i {
            graph.insert_node(j);
            assert_eq!(graph.len(), j);
        }

        for j in 1..i {
            graph.remove_node(j);
            assert_eq!(graph.len(), i - j - 1);
        }

        graph.insert_node(i);
        assert_eq!(graph.len(), 1);

        for j in 1..i {
            graph.insert_node(j);
            graph.insert_edge(j, i);
            assert_eq!(graph.len(), j + 1);
        }

        for j in 1..i {
            graph.remove_node(j);
            assert_eq!(graph.len(), i - j);
        }
        graph.remove_node(i);
        assert_eq!(graph.len(), 0);
    }
}

#[test]
fn directed_graph_test_edges() {
    for i in 0..500 {
        println!("--- case {} ---", i);
        let mut graph = DirectedGraph::new();

        for j in 1..i {
            graph.insert_node(j);
            assert_eq!(graph.len(), j);
        }

        for j in 1..i {
            graph.insert_edge(j, i - j);
        }

        for j in 1..i {
            let adj = graph.get_adj(&j);

            assert!(adj.contains(&(i - j)));
            assert_eq!(adj.len(), 1);
        }

        for j in 1..i / 2 {
            graph.remove_node(j);
            assert_eq!(graph.len(), i - j - 1);
        }

        for j in 1..i / 2 {
            let adj = graph.get_adj(&j);
            println!("{} -- {:?}", j, adj);

            assert!(!adj.contains(&(i - j)));
            assert_eq!(adj.len(), 0);
        }

        let mut graph = DirectedGraph::new();

        graph.insert_node(i);

        assert_eq!(graph.len(), 1);

        for j in 1..i {
            graph.insert_node(j);
            graph.insert_edge(j, i);
            assert_eq!(graph.len(), j + 1);
        }

        if i > 7 {
            for j in 1..i - 3 {
                graph.insert_edge(j, j + 3);
            }

            for j in 1..i - 7 {
                graph.insert_edge(j, j + 7);
            }

            for j in 1..i - 7 {
                let adj = graph.get_adj(&j);

                println!("{} -> {:?}", j, adj);

                assert!(adj.contains(&i));
                assert!(adj.contains(&(j + 3)));
                assert!(adj.contains(&(j + 7)));

                assert_eq!(adj.len(), 3);
            }

            for j in 1..i - 3 {
                graph.remove_edge(j, j + 3);
            }

            for j in 1..i - 7 {
                let adj = graph.get_adj(&j);

                assert!(adj.contains(&i));
                assert!(!adj.contains(&(j + 3)));
                assert!(adj.contains(&(j + 7)));
                assert_eq!(adj.len(), 2);
            }
            graph.remove_node(i);

            for j in 1..i - 7 {
                let adj = graph.get_adj(&j);

                assert!(adj.contains(&i));
                assert!(!adj.contains(&(j + 3)));
                assert!(adj.contains(&(j + 7)));
                assert_eq!(adj.len(), 2);
            }

            for j in 1..i {
                graph.remove_node(j);
                assert_eq!(graph.len(), i - j - 1);
            }
        }
    }
}

#[test]
fn directed_graph_bfs_search() {
    for i in vec![0, 1, 2, 3] {
        println!("bfs test with {} layers", i);

        let mut graph = DirectedGraph::new();

        let mut level = vec![];
        for m in 1..i + 1 {
            let mut new_level = vec![];
            for n in 0..m {
                graph.insert_node(m * m + n);
                for node in level.clone() {
                    graph.insert_edge(m * m + n, node);
                }
                new_level.push(m * m + n);
            }
            level = new_level;
        }

        let tree = breadth_first_search(graph.clone(), 1);
        println!("{:?}\n{:?}", graph, tree);
    }
}

fn build_binary_tree(graph: &mut DirectedGraph<i32>, index: &mut i32, level: i32, max: i32) {
    let local = *index;
    graph.insert_node(local);
    *index += 1;
    if level < max {
        graph.insert_edge(local, *index);
        build_binary_tree(graph, index, level + 1, max);
        graph.insert_edge(local, *index);
        build_binary_tree(graph, index, level + 1, max);
    }
}

#[test]
fn directed_graph_dfs_search() {
    for i in vec![0, 1, 2, 3] {
        let i = i as i32;
        println!("dfs test with {} layers", i);

        let mut graph = DirectedGraph::new();

        let mut level = vec![];
        for m in 1..i + 1 {
            let mut new_level = vec![];
            for n in 0..m {
                graph.insert_node(m * m + n);
                for node in level.clone() {
                    graph.insert_edge(m * m + n, node);
                }
                new_level.push(m * m + n);
            }
            level = new_level;
        }

        let (roots, order, cyclic) = depth_first_search(graph.clone());
        println!("Graph: {:?}\nOrder: {:?}\nRoots: {:?}", graph, order, roots);
        assert!(!cyclic);

        println!("dfs test with {} layers (part 2)", i);

        let mut graph = DirectedGraph::new();

        let mut index = 0;
        build_binary_tree(&mut graph, &mut index, 0, i);

        let (roots, order, cyclic) = depth_first_search(graph.clone());
        println!("Graph: {:?}\nOrder: {:?}\nRoots: {:?}", graph, order, roots);
        assert!(!cyclic);
    }
}

#[test]
fn directed_insert_edge_needs_a_held_source() {
    let mut graph = DirectedGraph::new();
    graph.insert_node(1u32);
    graph.insert_edge(2, 1);
    assert_eq!(graph.get_adj(&2).len(), 0);
    assert!(!graph.contains(&2));
    graph.insert_edge(1, 2);
    graph.insert_edge(1, 2);
    assert_eq!(graph.get_adj(&1), vec![2]);
    // re-inserting a node drops its edges
    graph.insert_node(1);
    assert_eq!(graph.get_adj(&1).len(), 0);
    assert!(graph.contains(&1));
}

#[test]
fn dfs_finds_a_directed_cycle_and_orders_a_dag() {
    let mut graph = DirectedGraph::new();
    for n in 1..=4u64 {
        graph.insert_node(n);
    }
    graph.insert_edge(1, 2);
    graph.insert_edge(2, 3);
    graph.insert_edge(1, 3);
    graph.insert_edge(4, 3);
    let (roots, order, cyclic) = depth_first_search(graph.clone());
    assert!(!cyclic);
    assert_eq!(order.len(), 4);
    let pos = |n: u64| order.iter().position(|x| *x == n).unwrap();
    assert!(pos(1) < pos(2) && pos(2) < pos(3) && pos(4) < pos(3));
    let mut roots = roots;
    roots.sort();
    assert_eq!(roots, vec![1, 4]);

    graph.insert_edge(3, 1);
    let (_, _, cyclic) = depth_first_search(graph.clone());
    assert!(cyclic);
}

#[test]
fn bfs_returns_shortest_paths() {
    let mut graph = DirectedGraph::new();
    for n in 0..6i32 {
        graph.insert_node(n);
    }
    graph.insert_edge(0, 1);
    graph.insert_edge(1, 2);
    graph.insert_edge(2, 3);
    graph.insert_edge(0, 3);
    graph.insert_edge(3, 4);
    let known = breadth_first_search(graph, 0);
    let path_to = |n: i32| known.iter().find(|e| e.0 == n).map(|e| e.1.clone());
    assert_eq!(path_to(0), Some(vec![]));
    assert_eq!(path_to(1), Some(vec![0]));
    assert_eq!(path_to(3), Some(vec![0]));
    assert_eq!(path_to(4), Some(vec![0, 3]));
    assert_eq!(path_to(2), Some(vec![0, 1]));
    assert_eq!(path_to(5), None);
    assert_eq!(known.len(), 5);
}

#[test]
fn bfs_from_an_unknown_origin_finds_only_it() {
    let graph: DirectedGraph<i32> = DirectedGraph::new();
    let known = breadth_first_search(graph, 42);
    assert_eq!(known, vec![(42, vec![])]);
}

#[test]
fn directed_from_undirected_keeps_both_directions() {
    let mut u = UndirectedGraph::new();
    u.insert_node(1u32);
    u.insert_node(2);
    u.insert_node(3);
    u.insert_edge(1, 2);
    let d = DirectedGraph::from_undirected(u);
    assert_eq!(d.len(), 3);
    assert_eq!(d.get_adj(&1), vec![2]);
    assert_eq!(d.get_adj(&2), vec![1]);
    assert_eq!(d.get_adj(&3).len(), 0);
}

#[test]
fn dfs_roots_are_the_search_starts() {
    let mut graph = DirectedGraph::new();
    graph.insert_node(1u32);
    graph.insert_node(2);
    graph.insert_node(3);
    graph.insert_edge(1, 2);
    graph.insert_edge(2, 1);
    let (roots, order, cyclic) = depth_first_search(graph);
    assert!(cyclic);
    assert_eq!(roots, vec![1, 3]);
    assert_eq!(order.len(), 3);
}
