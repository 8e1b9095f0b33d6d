use training::graphs::{Distance, Graph};

#[test]
fn bfs_simple() {
    let graph = Graph {
        edges: vec![
            vec![1, 2, 3],
            vec![2, 0],
            vec![0, 1],
            vec![0, 4],
            vec![1, 3],
            vec![],
        ],
    };

    assert_eq!(graph.bfs(0, 0), Distance::Reachable(0));
    assert_eq!(graph.bfs(0, 2), Distance::Reachable(1));
    assert_eq!(graph.bfs(0, 4), Distance::Reachable(2));
    assert_eq!(graph.bfs(2, 3), Distance::Reachable(2));

    assert_eq!(graph.bfs(5, 5), Distance::Reachable(0));
    assert_eq!(graph.bfs(5, 0), Distance::Unreachable);
    assert_eq!(graph.bfs(0, 5), Distance::Unreachable);
}

#[test]
fn bfs_two_components() {
    let graph = Graph {
        edges: vec![
            // First connectivity component
            vec![1],
            vec![0, 3],
            vec![3],
            vec![1, 2],
            // Second connectivity component
            vec![5, 6],
            vec![6, 4],
            vec![4, 5],
        ],
    };

    assert_eq!(graph.bfs(0, 2), Distance::Reachable(3));
    assert_eq!(graph.bfs(2, 0), Distance::Reachable(3));
    assert_eq!(graph.bfs(4, 5), Distance::Reachable(1));
    assert_eq!(graph.bfs(4, 0), Distance::Unreachable);
    assert_eq!(graph.bfs(0, 4), Distance::Unreachable);
}

#[test]
fn dfs_simple() {
    let graph = Graph {
        edges: vec![
            vec![1, 2, 3],
            vec![2, 0],
            vec![0, 1],
            vec![0, 4],
            vec![1, 3],
            vec![],
        ],
    };

    assert_eq!(graph.dfs(0, 4), Some(vec![0, 3, 4]));
    assert_eq!(graph.dfs(1, 3), Some(vec![1, 2, 0, 3]));
    assert_eq!(graph.dfs(0, 5), None);
}

#[test]
fn dfs_two_components() {
    let graph = Graph {
        edges: vec![
            // First connectivity component
            vec![1],
            vec![0, 3],
            vec![3],
            vec![1, 2],
            // Second connectivity component
            vec![5, 6],
            vec![6, 4],
            vec![4, 5],
        ],
    };

    assert_eq!(graph.dfs(2, 0), Some(vec![2, 3, 1, 0]));
    assert_eq!(graph.dfs(2, 4), None);
}

#[test]
fn increase_adds_one_edge() {
    assert_eq!(Distance::Reachable(0).increase(), Distance::Reachable(1));
    assert_eq!(Distance::Reachable(41).increase(), Distance::Reachable(42));
}

#[test]
fn dfs_back_to_the_start() {
    let cycle = Graph { edges: vec![vec![1], vec![2], vec![0]] };
    assert_eq!(cycle.dfs(0, 0), Some(vec![0, 1, 2, 0]));
    assert_eq!(cycle.dfs(0, 2), Some(vec![0, 1, 2]));
    let line = Graph { edges: vec![vec![1], vec![2], vec![]] };
    assert_eq!(line.dfs(0, 0), None);
    assert_eq!(line.dfs(2, 0), None);
    assert_eq!(line.bfs(0, 2), Distance::Reachable(2));
    assert_eq!(line.bfs(2, 0), Distance::Unreachable);
    let own = Graph { edges: vec![vec![0]] };
    assert_eq!(own.dfs(0, 0), Some(vec![0, 0]));
    assert_eq!(own.bfs(0, 0), Distance::Reachable(0));
}

#[test]
fn dfs_tries_the_edges_in_their_order() {
    // two ways lead from 0 to 3; the search finds the one through the edge
    // that is listed first, although it is the longer one
    let graph = Graph { edges: vec![vec![1, 3], vec![2], vec![3], vec![]] };
    assert_eq!(graph.dfs(0, 3), Some(vec![0, 1, 2, 3]));
    assert_eq!(graph.bfs(0, 3), Distance::Reachable(1));
    let turned = Graph { edges: vec![vec![3, 1], vec![2], vec![3], vec![]] };
    assert_eq!(turned.dfs(0, 3), Some(vec![0, 3]));
    // a node that was visited on the way to a dead end is not visited again
    let graph = Graph { edges: vec![vec![1, 2], vec![2], vec![3], vec![]] };
    assert_eq!(graph.dfs(0, 2), Some(vec![0, 1, 2]));
    assert_eq!(graph.dfs(0, 3), Some(vec![0, 1, 2, 3]));
}

#[test]
fn bfs_counts_the_edges_of_a_shortest_walk() {
    let ring: Vec<Vec<usize>> = (0..10).map(|i| vec![(i + 1) % 10]).collect();
    let graph = Graph { edges: ring };
    for to in 0..10 {
        assert_eq!(graph.bfs(0, to), Distance::Reachable(to));
        assert_eq!(graph.bfs(3, to), Distance::Reachable((to + 10 - 3) % 10));
    }
    let both: Vec<Vec<usize>> = (0..10).map(|i| vec![(i + 1) % 10, (i + 9) % 10]).collect();
    let graph = Graph { edges: both };
    for to in 0..10usize {
        assert_eq!(graph.bfs(0, to), Distance::Reachable(to.min(10 - to)));
    }
}

#[test]
fn graph_with_an_edge_to_nowhere() {
    assert!(Graph { edges: vec![] }.is_wf());
    assert!(Graph { edges: vec![vec![0], vec![1, 0]] }.is_wf());
    assert!(!Graph { edges: vec![vec![0], vec![1, 2]] }.is_wf());
    assert!(!Graph { edges: vec![vec![1]] }.is_wf());
}
