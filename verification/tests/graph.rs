use algokit::graph::bfs::Bfsable;
use algokit::graph::dfs::Dfsable;
use algokit::graph::dijkstra::Dijkstrable;
use algokit::graph::{
    Direct, Directed, DirectedUnweightedListGraph, DirectedWeightedListGraph, Undirected,
    UndirectedUnweightedListGraph, UndirectedWeightedListGraph, Unweighted, Weigh, Weighted,
};

#[test]
fn bfs() {
    let edges = &[(0, 1), (1, 2), (1, 3), (2, 4)];
    let g = UndirectedUnweightedListGraph::from_edges(5, edges);
    let mut bfs = g.bfs(0);

    assert_eq!(bfs.next(), Some((0, 1)));
    assert_eq!(bfs.next(), Some((1, 2)));
    assert_eq!(bfs.next(), Some((1, 3)));
    assert_eq!(bfs.next(), Some((2, 4)));
}

#[test]
fn dist() {
    let edges = &[(0, 1), (1, 2), (1, 3), (2, 4)];
    let g = UndirectedUnweightedListGraph::from_edges(6, edges);

    assert_eq!(g.bfs(0).dist(0), Some(0));
    assert_eq!(g.bfs(0).dist(1), Some(1));
    assert_eq!(g.bfs(1).dist(0), Some(1));
    assert_eq!(g.bfs(0).dist(3), Some(2));
    assert_eq!(g.bfs(3).dist(0), Some(2));
    assert_eq!(g.bfs(0).dist(4), Some(3));
    assert_eq!(g.bfs(2).dist(3), Some(2));
    assert_eq!(g.bfs(2).dist(4), Some(1));
    assert_eq!(g.bfs(1).dist(5), None);
}

#[test]
fn dfs() {
    let edges = &[(0, 1), (1, 2), (1, 3), (3, 4)];
    let g = UndirectedUnweightedListGraph::from_edges(5, edges);
    let mut dfs = g.dfs(0);

    assert_eq!(dfs.next(), Some((0, 1)));
    assert_eq!(dfs.next(), Some((1, 3)));
    assert_eq!(dfs.next(), Some((3, 4)));
    assert_eq!(dfs.next(), Some((1, 2)));
}

#[test]
fn walks_end_and_find_what_is_asked_for() {
    let edges = &[(0, 1), (1, 2), (1, 3), (3, 4)];
    let g = UndirectedUnweightedListGraph::from_edges(6, edges);
    let mut bfs = g.bfs(0);
    assert_eq!(bfs.start(), 0);
    assert_eq!(bfs.find(|x| x >= 3), Some(3));
    assert_eq!(bfs.find(|x| x >= 3), Some(4));
    assert_eq!(bfs.find(|x| x >= 3), None);
    assert_eq!(bfs.next(), None);
    let mut dfs = g.dfs(0);
    assert_eq!(dfs.find(|x| x % 2 == 0), Some(4));
    assert_eq!(dfs.find(|x| x % 2 == 0), Some(2));
    assert_eq!(dfs.find(|x| x % 2 == 0), None);
    assert_eq!(dfs.next(), None);
    assert_eq!(g.bfs(5).next(), None);
    assert_eq!(g.dfs(5).next(), None);
}

#[test]
fn a_directed_edge_leads_one_way() {
    let mut g = DirectedUnweightedListGraph::new(3);
    g.add_edge(0, 1);
    g.add_edge(1, 2);
    assert_eq!(g.len(), 3);
    assert_eq!(g.degree(0), 1);
    assert_eq!(g.neighbor(0, 0), 1);
    assert_eq!(g.degree(2), 0);
    assert_eq!(g.bfs(0).dist(2), Some(2));
    assert_eq!(g.bfs(2).dist(0), None);
    let same = DirectedUnweightedListGraph::from_edges(3, &[(0, 1), (1, 2)]);
    assert_eq!(same.bfs(0).dist(2), Some(2));
    let mut u = UndirectedUnweightedListGraph::new(2);
    u.add_edge(0, 1);
    assert_eq!(u.degree(1), 1);
    assert_eq!(u.neighbor(1, 0), 0);
}

#[test]
fn a_cycle_is_walked_once() {
    let g = UndirectedUnweightedListGraph::from_edges(4, &[(0, 1), (1, 2), (2, 3), (3, 0)]);
    let mut bfs = g.bfs(0);
    let mut seen = vec![];
    while let Some((_, to)) = bfs.next() {
        seen.push(to);
    }
    assert_eq!(seen, vec![1, 3, 2]);
    assert_eq!(g.bfs(0).dist(2), Some(2));
}

#[test]
fn weighted_graphs_keep_their_edges_and_start_a_search() {
    let mut g = UndirectedWeightedListGraph::<u32>::new(3);
    g.add_edge(0, 1, 7);
    assert_eq!(g.len(), 3);
    let d = DirectedWeightedListGraph::<u32>::from_edges(3, &[(0, 1, 5), (1, 2, 6)]);
    assert_eq!(d.len(), 3);
    let u = UndirectedWeightedListGraph::<u32>::from_edges(3, &[(0, 1, 5), (1, 2, 6)]);
    let search = u.dijkstra(1, 0);
    assert_eq!(search.start(), 1);
    assert_eq!(search.distance_to(1), Some(0));
    assert_eq!(search.distance_to(0), None);
    let mut one = DirectedWeightedListGraph::<u32>::new(2);
    one.add_edge(0, 1, 9);
    assert_eq!(one.dijkstra(0, 0).distance_to(1), None);
}

#[test]
fn the_markers_tell_what_a_graph_is() {
    assert!(Directed::directed());
    assert!(!Undirected::directed());
    assert!(!<Unweighted as Weigh<usize>>::weighted());
    assert!(<Weighted<u8> as Weigh<(usize, u8)>>::weighted());
}
