use maze::{depth_find_path, new_maze, random_depth_first, EdgeNode, Graph, VertexNode};
use rand::rngs::StdRng;
use rand::SeedableRng;
use std::collections::{BTreeSet, VecDeque};

fn side_cells(side: u32) -> u32 {
    side * side
}

fn open_pairs(g: &Graph, cells: u32) -> BTreeSet<(u32, u32)> {
    let mut set = BTreeSet::new();
    for u in 0..cells {
        if let Some(edges) = g.get_edges(u) {
            for &(v, e) in edges.iter() {
                if e == EdgeNode::Open {
                    set.insert((u, v));
                }
            }
        }
    }
    set
}

fn is_open(g: &Graph, u: u32, v: u32) -> bool {
    match g.get_edges(u) {
        Some(edges) => edges.iter().any(|&(w, e)| w == v && e == EdgeNode::Open),
        None => false,
    }
}

fn reachable_open(g: &Graph, start: u32, cells: u32) -> Vec<bool> {
    let mut seen = vec![false; cells as usize];
    let mut queue = VecDeque::new();
    seen[start as usize] = true;
    queue.push_back(start);
    while let Some(u) = queue.pop_front() {
        if let Some(edges) = g.get_edges(u) {
            for &(v, e) in edges.iter() {
                if e == EdgeNode::Open && !seen[v as usize] {
                    seen[v as usize] = true;
                    queue.push_back(v);
                }
            }
        }
    }
    seen
}

fn generated(side: u32, seed_cell: u32, rng_seed: u64) -> Graph {
    let mut g = new_maze(side);
    let mut rng = StdRng::seed_from_u64(rng_seed);
    random_depth_first(&mut g, seed_cell, &mut rng);
    g
}

#[test]
fn graph_starts_empty() {
    let g = Graph::new();
    assert!(g.get_edges(0).is_none());
    assert!(g.get_edges(7).is_none());
}

#[test]
fn push_edge_appends_without_dedup() {
    let mut g = Graph::new();
    g.push_vertex(0, VertexNode);
    g.push_edge(0, 1, EdgeNode::Closed);
    g.push_edge(0, 1, EdgeNode::Open);
    let edges = g.get_edges(0).unwrap();
    assert_eq!(edges, &vec![(1, EdgeNode::Closed), (1, EdgeNode::Open)]);
    assert!(g.get_edges(1).is_none());
}

#[test]
fn get_mut_edges_changes_one_list() {
    let mut g = Graph::new();
    g.push_edge(2, 0, EdgeNode::Closed);
    g.push_edge(0, 2, EdgeNode::Closed);
    {
        let edges = g.get_mut_edges(2).unwrap();
        edges[0] = (0, EdgeNode::Open);
    }
    assert_eq!(g.get_edges(2).unwrap(), &vec![(0, EdgeNode::Open)]);
    assert_eq!(g.get_edges(0).unwrap(), &vec![(2, EdgeNode::Closed)]);
    assert!(g.get_mut_edges(1).is_none());
}

#[test]
fn new_maze_two_by_two_lists() {
    let g = new_maze(2);
    assert_eq!(g.get_edges(0).unwrap(), &vec![(1, EdgeNode::Closed), (2, EdgeNode::Closed)]);
    assert_eq!(g.get_edges(1).unwrap(), &vec![(0, EdgeNode::Closed), (3, EdgeNode::Closed)]);
    assert_eq!(g.get_edges(2).unwrap(), &vec![(3, EdgeNode::Closed), (0, EdgeNode::Closed)]);
    assert_eq!(g.get_edges(3).unwrap(), &vec![(2, EdgeNode::Closed), (1, EdgeNode::Closed)]);
    assert!(g.get_edges(4).is_none());
}

#[test]
fn new_maze_three_by_three_centre() {
    let g = new_maze(3);
    assert_eq!(
        g.get_edges(4).unwrap(),
        &vec![
            (3, EdgeNode::Closed),
            (5, EdgeNode::Closed),
            (1, EdgeNode::Closed),
            (7, EdgeNode::Closed)
        ]
    );
    assert_eq!(g.get_edges(8).unwrap(), &vec![(7, EdgeNode::Closed), (5, EdgeNode::Closed)]);
}

#[test]
fn new_maze_single_cell_has_no_edges() {
    let g = new_maze(1);
    assert!(g.get_edges(0).is_none());
}

#[test]
fn generation_spans_every_grid() {
    for &side in [1u32, 2, 3, 5, 10].iter() {
        let cells = side_cells(side);
        for seed_cell in [0, cells / 2, cells - 1].iter() {
            let g = generated(side, *seed_cell, 11);
            let seen = reachable_open(&g, *seed_cell, cells);
            assert!(seen.iter().all(|&b| b), "side {} seed {}", side, seed_cell);
            let undirected = open_pairs(&g, cells).len();
            assert_eq!(undirected % 2, 0);
            assert_eq!(undirected / 2, (cells - 1) as usize);
        }
    }
}

#[test]
fn generation_opens_both_directions() {
    for &side in [2u32, 3, 5, 10].iter() {
        let cells = side_cells(side);
        let g = generated(side, 0, 3);
        for u in 0..cells {
            for &(v, _) in g.get_edges(u).unwrap().iter() {
                assert_eq!(is_open(&g, u, v), is_open(&g, v, u));
            }
        }
    }
}

#[test]
fn generation_keeps_targets() {
    let g0 = new_maze(5);
    let g = generated(5, 12, 99);
    for u in 0..25 {
        let mut before: Vec<u32> = g0.get_edges(u).unwrap().iter().map(|e| e.0).collect();
        let mut after: Vec<u32> = g.get_edges(u).unwrap().iter().map(|e| e.0).collect();
        before.sort();
        after.sort();
        assert_eq!(before, after);
    }
}

#[test]
fn generation_is_deterministic_for_a_seed() {
    let a = generated(10, 37, 2024);
    let b = generated(10, 37, 2024);
    assert_eq!(open_pairs(&a, 100), open_pairs(&b, 100));
}

#[test]
fn generation_from_outside_cell_is_noop() {
    let g = generated(3, 9, 1);
    assert!(open_pairs(&g, 9).is_empty());
}

#[test]
fn path_on_ten_by_ten() {
    let g = generated(10, 55, 5);
    let trace = depth_find_path(0, 99, &g);
    assert!(trace.found);
    let seen = reachable_open(&g, 0, 100);
    for &c in trace.explored.iter() {
        assert!(seen[c as usize]);
    }
    assert_eq!(trace.path[0], 0);
    assert_eq!(*trace.path.last().unwrap(), 99);
    assert_eq!(*trace.explored.last().unwrap(), 99);
    for w in trace.path.windows(2) {
        assert!(is_open(&g, w[0], w[1]));
    }
}

#[test]
fn two_by_two_scenario() {
    let g = generated(2, 0, 42);
    let pairs = open_pairs(&g, 4);
    assert_eq!(pairs.len(), 6);
    assert!(reachable_open(&g, 0, 4).iter().all(|&b| b));
    let trace = depth_find_path(0, 3, &g);
    assert!(trace.found);
    assert!(trace.path.len() <= 4);
    assert_eq!(trace.path[0], 0);
    assert_eq!(*trace.path.last().unwrap(), 3);
    for w in trace.path.windows(2) {
        assert!(is_open(&g, w[0], w[1]));
    }
}

#[test]
fn single_cell_scenario() {
    let g = generated(1, 0, 8);
    assert!(g.get_edges(0).is_none());
    let trace = depth_find_path(0, 0, &g);
    assert!(trace.found);
    assert_eq!(trace.events(), vec![(0, false), (0, true)]);
}

#[test]
fn isolated_cell_scenario() {
    let mut g = Graph::new();
    for id in 0..4 {
        g.push_vertex(id, VertexNode);
    }
    g.push_edge(0, 1, EdgeNode::Closed);
    g.push_edge(1, 0, EdgeNode::Closed);
    g.push_edge(1, 2, EdgeNode::Closed);
    g.push_edge(2, 1, EdgeNode::Closed);
    let mut rng = StdRng::seed_from_u64(4);
    random_depth_first(&mut g, 0, &mut rng);
    assert!(is_open(&g, 0, 1) && is_open(&g, 1, 0));
    assert!(is_open(&g, 1, 2) && is_open(&g, 2, 1));
    assert!(g.get_edges(3).is_none());
    let trace = depth_find_path(0, 3, &g);
    assert!(!trace.found);
    assert!(trace.path.is_empty());
    let mut explored = trace.explored.clone();
    explored.sort();
    assert_eq!(explored, vec![0, 1, 2]);
}

#[test]
fn search_follows_list_order() {
    let mut g = Graph::new();
    g.push_edge(0, 1, EdgeNode::Open);
    g.push_edge(0, 2, EdgeNode::Open);
    g.push_edge(1, 0, EdgeNode::Open);
    g.push_edge(2, 0, EdgeNode::Open);
    g.push_edge(2, 3, EdgeNode::Closed);
    let trace = depth_find_path(0, 1, &g);
    assert_eq!(trace.explored, vec![0, 2, 1]);
    assert_eq!(trace.path, vec![0, 1]);
    assert_eq!(
        trace.events(),
        vec![(0, false), (2, false), (1, false), (0, true), (1, true)]
    );
    let blocked = depth_find_path(0, 3, &g);
    assert!(!blocked.found);
    assert_eq!(blocked.events(), vec![(0, false), (2, false), (1, false)]);
}

#[test]
fn search_from_cell_without_edges() {
    let g = new_maze(2);
    let trace = depth_find_path(9, 0, &g);
    assert!(!trace.found);
    assert_eq!(trace.events(), vec![(9, false)]);
}

#[test]
fn different_seeds_give_different_mazes() {
    let a = generated(10, 0, 1);
    let b = generated(10, 0, 2);
    assert_ne!(open_pairs(&a, 100), open_pairs(&b, 100));
}

#[test]
fn search_explores_each_cell_once() {
    let g = generated(10, 0, 77);
    let trace = depth_find_path(0, 99, &g);
    let mut explored = trace.explored.clone();
    explored.sort();
    explored.dedup();
    assert_eq!(explored.len(), trace.explored.len());
    let mut path = trace.path.clone();
    path.sort();
    path.dedup();
    assert_eq!(path.len(), trace.path.len());
}

#[test]
fn generation_leaves_unreached_lists_alone() {
    let mut g = Graph::new();
    g.push_edge(0, 1, EdgeNode::Closed);
    g.push_edge(1, 0, EdgeNode::Closed);
    g.push_edge(2, 3, EdgeNode::Closed);
    g.push_edge(3, 2, EdgeNode::Closed);
    g.push_edge(3, 4, EdgeNode::Closed);
    let mut rng = StdRng::seed_from_u64(6);
    random_depth_first(&mut g, 0, &mut rng);
    assert_eq!(g.get_edges(2).unwrap(), &vec![(3, EdgeNode::Closed)]);
    assert_eq!(g.get_edges(3).unwrap(), &vec![(2, EdgeNode::Closed), (4, EdgeNode::Closed)]);
    assert!(is_open(&g, 0, 1) && is_open(&g, 1, 0));
}
