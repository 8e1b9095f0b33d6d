use std::collections::BTreeSet;
use training::graphs::dijkstra::queue::pop_first;
use training::graphs::dijkstra::{Distance, EstimateDistance, WeightedGraph};

#[test]
fn distance_ord() {
    assert!(Distance::Reachable(0) < Distance::Infinity);
}

#[test]
fn estimate_distance_ord() {
    assert!(
        EstimateDistance {
            node: 2,
            distance: Distance::Reachable(10)
        } < EstimateDistance {
            node: 0,
            distance: Distance::Reachable(20)
        }
    )
}

#[test]
fn dijkstra() {
    let graph = WeightedGraph {
        edges: vec![
            vec![(1, 7), (2, 9), (5, 14)],
            vec![(2, 10), (3, 15)],
            vec![(3, 11), (5, 2)],
            vec![],
            vec![(3, 6)],
            vec![(4, 9)],
        ],
    };

    let distances = graph.dijkstra(0);

    assert_eq!(
        distances,
        vec![
            Distance::Reachable(0),
            Distance::Reachable(7),
            Distance::Reachable(9),
            Distance::Reachable(20),
            Distance::Reachable(20),
            Distance::Reachable(11),
        ]
    );
}

#[test]
fn dijkstra_leaves_the_rest_at_infinity() {
    let graph = WeightedGraph {
        edges: vec![vec![(1, 3)], vec![(0, 1)], vec![(0, 5)], vec![]],
    };
    assert_eq!(
        graph.dijkstra(0),
        vec![
            Distance::Reachable(0),
            Distance::Reachable(3),
            Distance::Infinity,
            Distance::Infinity,
        ]
    );
    assert_eq!(
        graph.dijkstra(2),
        vec![
            Distance::Reachable(5),
            Distance::Reachable(8),
            Distance::Reachable(0),
            Distance::Infinity,
        ]
    );
    assert_eq!(
        graph.dijkstra(3),
        vec![
            Distance::Infinity,
            Distance::Infinity,
            Distance::Infinity,
            Distance::Reachable(0),
        ]
    );
}

#[test]
fn dijkstra_takes_the_lighter_of_two_edges() {
    let graph = WeightedGraph {
        edges: vec![vec![(1, 9), (1, 4), (1, 6)], vec![(1, 0)]],
    };
    assert_eq!(
        graph.dijkstra(0),
        vec![Distance::Reachable(0), Distance::Reachable(4)]
    );
}

#[test]
fn distance_add_and_order() {
    assert_eq!(Distance::Reachable(7) + 9, Distance::Reachable(16));
    assert_eq!(Distance::Infinity + 9, Distance::Infinity);
    assert!(Distance::Reachable(3).shorter_than(&Distance::Reachable(4)));
    assert!(!Distance::Reachable(4).shorter_than(&Distance::Reachable(4)));
    assert!(Distance::Reachable(u64::MAX).shorter_than(&Distance::Infinity));
    assert!(!Distance::Infinity.shorter_than(&Distance::Infinity));
    assert!(!Distance::Infinity.shorter_than(&Distance::Reachable(0)));
}

#[test]
fn keys_order_as_estimates_do() {
    let near = EstimateDistance { node: 2, distance: Distance::Reachable(10) };
    let far = EstimateDistance { node: 0, distance: Distance::Reachable(20) };
    let tie = EstimateDistance { node: 3, distance: Distance::Reachable(10) };
    assert_eq!(near.key(), Some((10, 2)));
    assert_eq!(far.key(), Some((20, 0)));
    assert_eq!((near < far), (near.key() < far.key()));
    assert_eq!((near < tie), (near.key() < tie.key()));
    assert_eq!((tie < far), (tie.key() < far.key()));
    let none = EstimateDistance { node: 1, distance: Distance::Infinity };
    assert_eq!(none.key(), None);
    assert!(far < none);
}

#[test]
fn pop_first_hands_out_the_least() {
    let mut set = BTreeSet::new();
    set.insert((20u64, 0usize));
    set.insert((10, 3));
    set.insert((10, 2));
    assert_eq!(pop_first(&mut set), (10, 2));
    assert_eq!(pop_first(&mut set), (10, 3));
    assert_eq!(pop_first(&mut set), (20, 0));
    assert!(set.is_empty());
}

#[test]
fn weighted_graph_with_an_edge_to_nowhere() {
    assert!(WeightedGraph { edges: vec![] }.is_wf());
    assert!(WeightedGraph { edges: vec![vec![(0, 1)], vec![(1, 2), (0, 3)]] }.is_wf());
    assert!(!WeightedGraph { edges: vec![vec![(0, 1)], vec![(1, 0), (2, 0)]] }.is_wf());
}
