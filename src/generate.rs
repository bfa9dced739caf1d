use vstd::prelude::*;
use vstd::set_lib::{lemma_int_range, lemma_len_subset, set_int_range};
use rand::rngs::StdRng;
use rand::seq::SliceRandom;
use crate::graph::{EdgeNode, Graph};
use crate::grid::{is_full_grid, lemma_grid_connected, lemma_grid_step_back, lemma_grid_steps};

verus! {

broadcast use vstd::seq_lib::group_to_multiset_ensures;

/// rand's seedable generator, carried through opaquely to the shuffle.
#[verifier::external_type_specification]
#[verifier::external_body]
pub struct ExStdRng(StdRng);

/// Relies on rand's `SliceRandom::shuffle`, which reorders a slice in place by
/// swapping its items: the result holds the same items, in an order drawn from `rng`.
#[verifier::external_body]
fn shuffle_edges(edges: &mut Vec<(u32, EdgeNode)>, rng: &mut StdRng)
    ensures
        final(edges)@.to_multiset() == old(edges)@.to_multiset(),
{
    edges.shuffle(rng);
}

/// The records of `s` with every state read as `Closed`: what is left of an
/// edge list once its walls and passages are ignored.
pub open spec fn targets_closed(s: Seq<(u32, EdgeNode)>) -> Seq<(u32, EdgeNode)> {
    s.map_values(|e: (u32, EdgeNode)| (e.0, EdgeNode::Closed))
}

/// Two sequences holding the same items still do after the same map.
proof fn lemma_multiset_map<A, B>(a: Seq<A>, b: Seq<A>, f: spec_fn(A) -> B)
    requires
        a.to_multiset() =~= b.to_multiset(),
    ensures
        a.map_values(f).to_multiset() =~= b.map_values(f).to_multiset(),
    decreases a.len(),
{
    assert(a.len() == a.to_multiset().len());
    assert(b.len() == b.to_multiset().len());
    if a.len() == 0 {
        assert(b.len() == 0);
        assert(a.map_values(f) =~= Seq::<B>::empty());
        assert(b.map_values(f) =~= Seq::<B>::empty());
    } else {
        let x = a.last();
        assert(a =~= a.drop_last().push(x));
        assert(a.contains(x)) by {
            assert(a[a.len() - 1] == x);
        }
        assert(b.to_multiset().count(x) > 0);
        assert(b.contains(x));
        let i = choose|i: int| 0 <= i < b.len() && b[i] == x;
        assert(a.drop_last().to_multiset() =~= b.remove(i).to_multiset());
        lemma_multiset_map(a.drop_last(), b.remove(i), f);
        assert(a.map_values(f) =~= a.drop_last().map_values(f).push(f(x)));
        assert(b.map_values(f).remove(i) =~= b.remove(i).map_values(f));
        let mb = b.map_values(f);
        assert(mb[i] == f(x));
        assert(mb.remove(i).to_multiset() =~= mb.to_multiset().remove(f(x)));
        assert(mb.contains(f(x)));
        assert(mb.to_multiset().count(f(x)) > 0);
        assert(mb.to_multiset() =~= mb.to_multiset().remove(f(x)).insert(f(x)));
    }
}

/// Sets every record of `list` whose target is `target` to `Open`.
fn open_records(list: &mut Vec<(u32, EdgeNode)>, target: u32)
    ensures
        final(list)@.len() == old(list)@.len(),
        forall|j: int|
            0 <= j < old(list)@.len() ==> #[trigger] final(list)@[j] == (
                old(list)@[j].0,
                if old(list)@[j].0 == target {
                    EdgeNode::Open
                } else {
                    old(list)@[j].1
                },
            ),
{
    let mut i: usize = 0;
    while i < list.len()
        invariant
            i <= list@.len(),
            list@.len() == old(list)@.len(),
            forall|j: int|
                0 <= j < list@.len() ==> #[trigger] list@[j] == if j < i {
                    (
                        old(list)@[j].0,
                        if old(list)@[j].0 == target {
                            EdgeNode::Open
                        } else {
                            old(list)@[j].1
                        },
                    )
                } else {
                    old(list)@[j]
                },
        decreases list@.len() - i,
    {
        let (w, _) = list[i];
        if w == target {
            list.set(i, (w, EdgeNode::Open));
        }
        i = i + 1;
    }
}

/// Opens every record between `u` and `w`, in both directions.
fn open_between(maze: &mut Graph, u: u32, w: u32)
    requires
        u != w,
        old(maze).wf(),
    ensures
        final(maze).wf(),
        forall|x: int, y: int| #[trigger] final(maze).any_step(x, y) <==> old(maze).any_step(x, y),
        final(maze).slots() == old(maze).slots(),
        forall|x: int| #[trigger] final(maze).vertex(x) == old(maze).vertex(x),
        forall|x: int| (#[trigger] final(maze).edges(x)) is Some <==> old(maze).edges(x) is Some,
        forall|x: int|
            x != u && x != w ==> #[trigger] final(maze).edges(x) == old(maze).edges(x),
        forall|x: int|
            #![trigger final(maze).edges(x)]
            final(maze).edges(x) is Some ==> final(maze).edges(x).unwrap().len() == old(
                maze,
            ).edges(x).unwrap().len(),
        forall|x: int, j: int|
            #![trigger final(maze).edges(x).unwrap()[j]]
            final(maze).edges(x) is Some && 0 <= j < final(maze).edges(x).unwrap().len()
                ==> final(maze).edges(x).unwrap()[j].0 == old(maze).edges(x).unwrap()[j].0,
        forall|x: int, y: int, s: EdgeNode|
            #[trigger] final(maze).has_record(x, y, s) <==> if (x == u && y == w) || (x == w && y
                == u) {
                s == EdgeNode::Open && old(maze).any_step(x, y)
            } else {
                old(maze).has_record(x, y, s)
            },
{
    let ghost g0 = *maze;
    match maze.get_mut_edges(u) {
        Some(list) => open_records(list, w),
        None => {},
    }
    let ghost g1 = *maze;
    match maze.get_mut_edges(w) {
        Some(list) => open_records(list, u),
        None => {},
    }
    proof {
        let g2 = *maze;
        assert forall|x: int, y: int, s: EdgeNode|
            #[trigger] g2.has_record(x, y, s) <==> if (x == u && y == w) || (x == w && y == u) {
                s == EdgeNode::Open && g0.any_step(x, y)
            } else {
                g0.has_record(x, y, s)
            } by {
            if x == u || x == w {
                let t: int = if x == u { w as int } else { u as int };
                if g2.has_record(x, y, s) {
                    let i = choose|i: int|
                        0 <= i < g2.edges(x).unwrap().len() && #[trigger] g2.edges(x).unwrap()[i]
                            == (y as u32, s);
                    assert(g0.edges(x).unwrap()[i].0 == y);
                    if y != t {
                        assert(g0.edges(x).unwrap()[i] == (y as u32, s));
                    }
                }
                if y == t && g0.any_step(x, y) {
                    let i = choose|i: int|
                        0 <= i < g0.edges(x).unwrap().len() && #[trigger] g0.edges(x).unwrap()[i].0
                            == y;
                    assert(g2.edges(x).unwrap()[i] == (y as u32, EdgeNode::Open));
                }
                if y != t && g0.has_record(x, y, s) {
                    let i = choose|i: int|
                        0 <= i < g0.edges(x).unwrap().len() && #[trigger] g0.edges(x).unwrap()[i]
                            == (y as u32, s);
                    assert(g2.edges(x).unwrap()[i] == (y as u32, s));
                }
            } else {
                assert(g2.edges(x) == g0.edges(x));
            }
        }
        assert forall|x: int, y: int| #[trigger] g2.any_step(x, y) <==> g0.any_step(x, y) by {
            if g2.any_step(x, y) {
                let i = choose|i: int|
                    0 <= i < g2.edges(x).unwrap().len() && #[trigger] g2.edges(x).unwrap()[i].0 == y;
                assert(g0.edges(x).unwrap()[i].0 == y);
            }
            if g0.any_step(x, y) {
                let i = choose|i: int|
                    0 <= i < g0.edges(x).unwrap().len() && #[trigger] g0.edges(x).unwrap()[i].0 == y;
                assert(g2.edges(x).unwrap()[i].0 == y);
            }
        }
        assert forall|x: int, j: int|
            #![trigger g2.edges(x).unwrap()[j]]
            g2.edges(x) is Some && 0 <= j < g2.edges(x).unwrap().len()
                implies g2.edges(x).unwrap()[j].0 < g2.slots() by {
            assert(g0.edges(x).unwrap()[j].0 == g2.edges(x).unwrap()[j].0);
        }
    }
}

/// Reachability through open passages only grows when passages are added.
proof fn lemma_reach_grows(g1: Graph, g2: Graph)
    requires
        forall|x: int, y: int| #[trigger] g1.open_step(x, y) ==> g2.open_step(x, y),
    ensures
        forall|s: int, t: int| #[trigger] g1.open_reachable(s, t) ==> g2.open_reachable(s, t),
{
    assert forall|s: int, t: int| #[trigger] g1.open_reachable(s, t) implies g2.open_reachable(
        s,
        t,
    ) by {
        let p = choose|p: Seq<u32>| #[trigger] g1.is_open_path(p) && p[0] == s && p.last() == t;
        assert forall|i: int| 0 <= i < p.len() - 1 implies #[trigger] g2.open_step(
            p[i] as int,
            p[i + 1] as int,
        ) by {
            assert(g1.open_step(p[i] as int, p[i + 1] as int));
        }
        assert(g2.is_open_path(p));
    }
}

/// Every cell of a walk that starts inside a set closed under edge records lies in that set.
proof fn lemma_closed_holds_walk(g: Graph, p: Seq<u32>, k: int, seen: Set<int>)
    requires
        g.is_walk(p),
        0 <= k < p.len(),
        seen.contains(p[0] as int),
        forall|v: int, w: int| seen.contains(v) && #[trigger] g.any_step(v, w) ==> seen.contains(w),
    ensures
        seen.contains(p[k] as int),
    decreases k,
{
    if k > 0 {
        lemma_closed_holds_walk(g, p, k - 1, seen);
        assert(g.any_step(p[k - 1] as int, p[(k - 1) + 1] as int));
    }
}

/// The first target in the edge list of `u` that `visited` does not mark, if any.
fn first_unvisited(maze: &Graph, u: u32, visited: &Vec<bool>) -> (r: Option<u32>)
    requires
        maze.wf(),
        visited@.len() == maze.slots(),
    ensures
        match r {
            Some(w) => w < visited@.len() && !visited@[w as int] && maze.any_step(u as int, w as int),
            None => forall|y: int| #[trigger] maze.any_step(u as int, y) ==> visited@[y],
        },
{
    match maze.get_edges(u) {
        Some(list) => {
            let mut i: usize = 0;
            while i < list.len()
                invariant
                    i <= list@.len(),
                    maze.wf(),
                    visited@.len() == maze.slots(),
                    maze.edges(u as int) == Some(list@),
                    forall|j: int| 0 <= j < i ==> visited@[(#[trigger] list@[j]).0 as int],
                decreases list@.len() - i,
            {
                let (w, _) = list[i];
                assert(maze.edges(u as int).unwrap()[i as int].0 == w);
                if !visited[w as usize] {
                    return Some(w);
                }
                i = i + 1;
            }
            proof {
                assert forall|y: int| #[trigger] maze.any_step(u as int, y) implies visited@[y] by {
                    let j = choose|j: int|
                        0 <= j < list@.len() && #[trigger] maze.edges(u as int).unwrap()[j].0 == y;
                    assert(list@[j].0 == y);
                }
            }
            None
        },
        None => None,
    }
}

/// Pushing onto a stack keeps what it held and adds the new cell.
proof fn lemma_contains_push(s: Seq<u32>, e: u32)
    ensures
        forall|v: u32| s.contains(v) ==> #[trigger] s.push(e).contains(v),
        s.push(e).contains(e),
{
    assert forall|v: u32| s.contains(v) implies #[trigger] s.push(e).contains(v) by {
        let k = choose|k: int| 0 <= k < s.len() && s[k] == v;
        assert(s.push(e)[k] == v);
    }
    assert(s.push(e)[s.len() as int] == e);
}

/// Popping a stack keeps every cell other than the one on top.
proof fn lemma_contains_drop_last(s: Seq<u32>)
    requires
        s.len() > 0,
    ensures
        forall|v: u32| s.contains(v) && v != s.last() ==> #[trigger] s.drop_last().contains(v),
{
    assert forall|v: u32| s.contains(v) && v != s.last() implies #[trigger] s.drop_last().contains(
        v,
    ) by {
        let k = choose|k: int| 0 <= k < s.len() && s[k] == v;
        assert(s.drop_last()[k] == v);
    }
}

/// Reordering one edge list changes no record and no target.
proof fn lemma_reordered(g1: Graph, g2: Graph, u: int)
    requires
        g2.slots() == g1.slots(),
        forall|x: int| x != u ==> #[trigger] g2.edges(x) == g1.edges(x),
        g2.edges(u) is Some <==> g1.edges(u) is Some,
        g1.edges(u) is Some ==> g2.edges(u).unwrap().to_multiset() =~= g1.edges(u).unwrap().to_multiset(),
    ensures
        forall|x: int, y: int, s: EdgeNode|
            #[trigger] g2.has_record(x, y, s) <==> g1.has_record(x, y, s),
        forall|x: int, y: int| #[trigger] g2.any_step(x, y) <==> g1.any_step(x, y),
        g1.wf() ==> g2.wf(),
{
    if g1.edges(u) is Some {
        let a = g1.edges(u).unwrap();
        let b = g2.edges(u).unwrap();
        assert forall|e: (u32, EdgeNode)| a.contains(e) <==> b.contains(e) by {
            assert(a.contains(e) <==> a.to_multiset().count(e) > 0);
            assert(b.contains(e) <==> b.to_multiset().count(e) > 0);
        }
        assert forall|x: int, y: int, s: EdgeNode|
            #[trigger] g2.has_record(x, y, s) <==> g1.has_record(x, y, s) by {
            if x == u {
                if g2.has_record(x, y, s) {
                    let i = choose|i: int| 0 <= i < b.len() && #[trigger] b[i] == (y as u32, s);
                    assert(b.contains(b[i]));
                }
                if g1.has_record(x, y, s) {
                    let i = choose|i: int| 0 <= i < a.len() && #[trigger] a[i] == (y as u32, s);
                    assert(a.contains(a[i]));
                }
            }
        }
        assert forall|x: int, y: int| #[trigger] g2.any_step(x, y) <==> g1.any_step(x, y) by {
            if x == u {
                if g2.any_step(x, y) {
                    let i = choose|i: int| 0 <= i < b.len() && #[trigger] b[i].0 == y;
                    assert(b.contains(b[i]));
                    let j = choose|j: int| 0 <= j < a.len() && a[j] == b[i];
                    assert(a[j].0 == y);
                }
                if g1.any_step(x, y) {
                    let i = choose|i: int| 0 <= i < a.len() && #[trigger] a[i].0 == y;
                    assert(a.contains(a[i]));
                    let j = choose|j: int| 0 <= j < b.len() && b[j] == a[i];
                    assert(b[j].0 == y);
                }
            }
        }
        if g1.wf() {
            assert forall|x: int, j: int|
                #![trigger g2.edges(x).unwrap()[j]]
                g2.edges(x) is Some && 0 <= j < g2.edges(x).unwrap().len()
                    implies g2.edges(x).unwrap()[j].0 < g2.slots() by {
                if x == u {
                    assert(b.contains(b[j]));
                    let k = choose|k: int| 0 <= k < a.len() && a[k] == b[j];
                    assert(g1.edges(x).unwrap()[k].0 < g1.slots());
                } else {
                    assert(g1.edges(x).unwrap()[j] == g2.edges(x).unwrap()[j]);
                }
            }
        }
    } else {
        assert forall|x: int, y: int, s: EdgeNode|
            #[trigger] g2.has_record(x, y, s) <==> g1.has_record(x, y, s) by {
            assert(g2.edges(x) == g1.edges(x));
        }
        assert forall|x: int, y: int| #[trigger] g2.any_step(x, y) <==> g1.any_step(x, y) by {
            assert(g2.edges(x) == g1.edges(x));
        }
        if g1.wf() {
            assert forall|x: int, j: int|
                #![trigger g2.edges(x).unwrap()[j]]
                g2.edges(x) is Some && 0 <= j < g2.edges(x).unwrap().len()
                    implies g2.edges(x).unwrap()[j].0 < g2.slots() by {
                assert(g1.edges(x) == g2.edges(x));
            }
        }
    }
}

/// `parent` and `rank` exhibit the open passages of `g` as a tree rooted at
/// `root`: every cell of `rank` but the root has a parent of lower rank, the
/// passage from the parent to it is open, and every open passage joins a cell
/// and its parent. Ranks fall along parent links, so the passages close no cycle.
pub open spec fn tree_links(g: &Graph, root: int, parent: Map<int, int>, rank: Map<int, nat>) -> bool {
    &&& rank.dom().contains(root)
    &&& rank.dom().finite()
    &&& forall|y: int| #[trigger] parent.dom().contains(y) <==> rank.dom().contains(y) && y != root
    &&& forall|y: int|
        #[trigger] parent.dom().contains(y) ==> g.open_step(parent[y], y) && rank.dom().contains(
            parent[y],
        ) && rank[parent[y]] < rank[y]
    &&& forall|x: int, y: int|
        #[trigger] g.open_step(x, y) ==> (parent.dom().contains(y) && parent[y] == x) || (
        parent.dom().contains(x) && parent[x] == y)
}

/// The open passages of `g` form the spanning tree that a carve from `initial`
/// leaves on the all-closed graph `g0` it was handed: each edge list is its old
/// records reordered, some of them turned open; every passage is open both
/// ways; every cell that `initial` could reach through walls is reachable
/// through passages; the lists of cells it could not reach are untouched (so a
/// seed without an edge list leaves every list as it was); and the passages
/// form a tree rooted at `initial`.
pub open spec fn carved_from(g0: &Graph, g: &Graph, initial: u32) -> bool {
    &&& g.wf()
    &&& g.slots() == g0.slots()
    &&& forall|x: int| #[trigger] g.vertex(x) == g0.vertex(x)
    &&& forall|x: int| (#[trigger] g.edges(x)) is Some <==> g0.edges(x) is Some
    &&& forall|x: int|
        (#[trigger] g.edges(x)) is Some ==> targets_closed(g.edges(x).unwrap()).to_multiset()
            == targets_closed(g0.edges(x).unwrap()).to_multiset()
    &&& forall|x: int, y: int| #[trigger] g.any_step(x, y) <==> g0.any_step(x, y)
    &&& g.open_symmetric()
    &&& forall|c: int| #[trigger] g0.walk_reachable(initial as int, c) ==> g.open_reachable(initial as int, c)
    &&& forall|x: int| !g0.walk_reachable(initial as int, x) ==> #[trigger] g.edges(x) == g0.edges(x)
    &&& g0.edges(initial as int) is None ==> forall|x: int| #[trigger] g.edges(x) == g0.edges(x)
    &&& forall|x: int, y: int| #[trigger] g.open_step(x, y) ==> g.open_reachable(initial as int, x)
    &&& exists|parent: Map<int, int>, rank: Map<int, nat>|
        #[trigger] tree_links(g, initial as int, parent, rank) && forall|c: int|
            rank.dom().contains(c) <==> #[trigger] g.open_reachable(initial as int, c)
}

/// Carves a maze into `maze` from the cell `initial` (randomized depth-first
/// carve, the recursive backtracker).
///
/// A stack starts with `initial`. Each round takes the top cell, shuffles its
/// edge list with `rng`, and looks for the first target not yet visited. If
/// there is one, the cell goes back on the stack, every record between the two
/// cells is opened in both directions, and the target is visited and stacked;
/// otherwise the cell is dropped. A cell without an edge list, `initial`
/// included, carves nothing.
pub fn random_depth_first(maze: &mut Graph, initial: u32, rng: &mut StdRng)
    requires
        old(maze).wf(),
        old(maze).all_closed(),
    ensures
        carved_from(old(maze), final(maze), initial),
{
    let ghost g0 = *maze;
    let n: usize = maze.adjacency_slots();
    if initial as usize >= n {
        proof {
            maze.lemma_edges_in_slots(initial as int);
            assert(maze.is_open_path(seq![initial]));
            assert forall|c: int| #[trigger] g0.walk_reachable(initial as int, c) implies maze.open_reachable(
                initial as int,
                c,
            ) by {
                let p = choose|p: Seq<u32>| #[trigger] g0.is_walk(p) && p[0] == initial && p.last() == c;
                if p.len() > 1 {
                    assert(g0.any_step(p[0] as int, p[0int + 1] as int));
                }
            }
            assert forall|x: int, y: int| #[trigger] maze.open_step(x, y) implies false by {
                let i = choose|i: int|
                    0 <= i < maze.edges(x).unwrap().len() && #[trigger] maze.edges(x).unwrap()[i] == (
                        y as u32,
                        EdgeNode::Open,
                    );
            }
            let parent = Map::<int, int>::empty();
            let rank = map![initial as int => 0nat];
            assert(rank.dom() =~= set![initial as int]);
            assert(tree_links(maze, initial as int, parent, rank));
            assert forall|c: int| rank.dom().contains(c) <==> #[trigger] maze.open_reachable(
                initial as int,
                c,
            ) by {
                if maze.open_reachable(initial as int, c) {
                    let p = choose|p: Seq<u32>|
                        #[trigger] maze.is_open_path(p) && p[0] == initial && p.last() == c;
                    if p.len() > 1 {
                        assert(maze.open_step(p[0] as int, p[0int + 1] as int));
                    }
                }
                if c == initial {
                    assert(maze.is_open_path(seq![initial]));
                    assert(seq![initial][0] == initial);
                }
            }
        }
        return;
    }
    let mut visited: Vec<bool> = Vec::new();
    while visited.len() < n
        invariant
            visited@.len() <= n,
            forall|k: int| 0 <= k < visited@.len() ==> !visited@[k],
        decreases n - visited.len(),
    {
        visited.push(false);
    }
    visited.set(initial as usize, true);
    let ghost mut seen: Set<int> = set![initial as int];
    let ghost mut parent: Map<int, int> = Map::empty();
    let ghost mut rank: Map<int, nat> = map![initial as int => 0nat];
    let mut stack: Vec<u32> = vec![initial];
    proof {
        assert(maze.is_open_path(seq![initial]));
        assert forall|x: int, y: int| #[trigger] maze.open_step(x, y) implies false by {
            let i = choose|i: int|
                0 <= i < maze.edges(x).unwrap().len() && #[trigger] maze.edges(x).unwrap()[i] == (
                    y as u32,
                    EdgeNode::Open,
                );
        }
        assert(stack@.contains(initial)) by {
            assert(stack@[0] == initial);
        }
        assert(rank.dom() =~= seen);
    }
    while stack.len() > 0
        invariant
            maze.wf(),
            maze.slots() == n,
            n == g0.slots(),
            (initial as int) < n,
            forall|x: int| #[trigger] maze.vertex(x) == g0.vertex(x),
            forall|x: int| (#[trigger] maze.edges(x)) is Some <==> g0.edges(x) is Some,
            forall|x: int, y: int| #[trigger] maze.any_step(x, y) <==> g0.any_step(x, y),
            maze.open_symmetric(),
            visited@.len() == n,
            seen.subset_of(set_int_range(0, n as int)),
            forall|c: int| 0 <= c < n ==> (visited@[c] <==> seen.contains(c)),
            seen.contains(initial as int),
            forall|x: int, y: int|
                #[trigger] maze.open_step(x, y) ==> seen.contains(x) && seen.contains(y),
            forall|c: int| seen.contains(c) ==> #[trigger] maze.open_reachable(initial as int, c),
            forall|k: int| 0 <= k < stack@.len() ==> seen.contains(#[trigger] stack@[k] as int),
            tree_links(maze, initial as int, parent, rank),
            rank.dom() == seen,
            forall|x: int| !seen.contains(x) ==> #[trigger] maze.edges(x) == g0.edges(x),
            forall|x: int|
                (#[trigger] maze.edges(x)) is Some ==> targets_closed(maze.edges(x).unwrap()).to_multiset()
                    == targets_closed(g0.edges(x).unwrap()).to_multiset(),
            forall|v: int|
                #[trigger] seen.contains(v) ==> stack@.contains(v as u32) || forall|w: int|
                    #[trigger] maze.any_step(v, w) ==> seen.contains(w),
        decreases n - seen.len(), stack@.len(),
    {
        proof {
            lemma_int_range(0, n as int);
            lemma_len_subset(seen, set_int_range(0, n as int));
        }
        let ghost stack_before = stack@;
        let ghost seen_before = seen;
        let current = stack.pop().unwrap();
        proof {
            assert(stack@ == stack_before.drop_last());
            assert(stack_before.last() == current);
            lemma_contains_drop_last(stack_before);
        }
        let ghost g1 = *maze;
        match maze.get_mut_edges(current) {
            Some(list) => shuffle_edges(list, rng),
            None => {},
        }
        proof {
            if g1.edges(current as int) is Some {
                lemma_multiset_map(
                    maze.edges(current as int).unwrap(),
                    g1.edges(current as int).unwrap(),
                    |e: (u32, EdgeNode)| (e.0, EdgeNode::Closed),
                );
            }
            assert forall|x: int|
                (#[trigger] maze.edges(x)) is Some implies targets_closed(maze.edges(x).unwrap()).to_multiset()
                    == targets_closed(g0.edges(x).unwrap()).to_multiset() by {
                assert(g1.edges(x) is Some);
            }
            lemma_reordered(g1, *maze, current as int);
            lemma_reach_grows(g1, *maze);
            assert forall|x: int, y: int| #[trigger] maze.open_step(x, y) implies !maze.has_record(
                x,
                y,
                EdgeNode::Closed,
            ) && !maze.has_record(y, x, EdgeNode::Closed) by {
                assert(g1.has_record(x, y, EdgeNode::Open));
                assert(g1.open_step(x, y));
            }
            assert forall|c: int| seen.contains(c) implies #[trigger] maze.open_reachable(
                initial as int,
                c,
            ) by {
                assert(g1.open_reachable(initial as int, c));
            }
            assert forall|x: int, y: int| #[trigger] maze.open_step(x, y) implies seen.contains(x)
                && seen.contains(y) by {
                assert(g1.has_record(x, y, EdgeNode::Open));
                assert(g1.open_step(x, y));
            }
            assert forall|x: int, y: int| #[trigger] maze.open_step(x, y) implies (parent.dom().contains(y)
                && parent[y] == x) || (parent.dom().contains(x) && parent[x] == y) by {
                assert(g1.has_record(x, y, EdgeNode::Open));
                assert(g1.open_step(x, y));
            }
            assert forall|y: int| #[trigger] parent.dom().contains(y) implies maze.open_step(parent[y], y) by {
                assert(g1.open_step(parent[y], y));
                assert(g1.has_record(parent[y], y, EdgeNode::Open));
            }
            assert(tree_links(maze, initial as int, parent, rank));
        }
        let next = first_unvisited(maze, current, &visited);
        match next {
            Some(w) => {
                let ghost g2 = *maze;
                proof {
                    assert(seen.contains(current as int));
                    assert(w != current);
                }
                open_between(maze, current, w);
                visited.set(w as usize, true);
                proof {
                    seen = seen.insert(w as int);
                    assert(seen.len() == seen_before.len() + 1);
                    let g3 = *maze;
                    assert forall|x: int|
                        (#[trigger] g3.edges(x)) is Some implies targets_closed(g3.edges(x).unwrap()).to_multiset()
                            == targets_closed(g0.edges(x).unwrap()).to_multiset() by {
                        assert(g2.edges(x) is Some);
                        assert(targets_closed(g3.edges(x).unwrap()) =~= targets_closed(g2.edges(x).unwrap()));
                    }
                    assert(g2.any_step(current as int, w as int));
                    assert(g3.has_record(current as int, w as int, EdgeNode::Open));
                    assert(g3.open_step(current as int, w as int));
                    assert forall|x: int, y: int| #[trigger] g2.open_step(x, y) implies g3.open_step(x, y) by {
                        if (x == current && y == w) || (x == w && y == current) {
                            assert(g2.has_record(x, y, EdgeNode::Open));
                            let i = choose|i: int|
                                0 <= i < g2.edges(x).unwrap().len() && #[trigger] g2.edges(x).unwrap()[i] == (
                                    y as u32,
                                    EdgeNode::Open,
                                );
                            assert(g2.edges(x).unwrap()[i].0 == y);
                            assert(g2.any_step(x, y));
                        }
                        assert(g3.has_record(x, y, EdgeNode::Open));
                    }
                    lemma_reach_grows(g2, g3);
                    assert(seen_before.contains(current as int));
                    assert(g1.open_reachable(initial as int, current as int));
                    assert(g2.open_reachable(initial as int, current as int));
                    assert(g3.open_reachable(initial as int, current as int));
                    let p = choose|p: Seq<u32>|
                        #[trigger] g3.is_open_path(p) && p[0] == initial && p.last() == current;
                    let q = p.push(w);
                    assert forall|i: int| 0 <= i < q.len() - 1 implies #[trigger] g3.open_step(
                        q[i] as int,
                        q[i + 1] as int,
                    ) by {
                        if i < p.len() - 1 {
                            assert(g3.open_step(p[i] as int, p[i + 1] as int));
                        }
                    }
                    assert(g3.is_open_path(q) && q[0] == initial && q.last() == w);
                    assert forall|c: int| seen.contains(c) implies #[trigger] g3.open_reachable(
                        initial as int,
                        c,
                    ) by {
                        if c != w {
                            assert(g2.open_reachable(initial as int, c));
                        }
                    }
                    assert forall|x: int, y: int| #[trigger] g3.open_step(x, y) implies !g3.has_record(
                        x,
                        y,
                        EdgeNode::Closed,
                    ) && !g3.has_record(y, x, EdgeNode::Closed) by {
                        if !((x == current && y == w) || (x == w && y == current)) {
                            assert(g3.has_record(x, y, EdgeNode::Open));
                            assert(g2.has_record(x, y, EdgeNode::Open));
                            assert(g2.open_step(x, y));
                            assert(!g2.has_record(x, y, EdgeNode::Closed));
                            assert(!g2.has_record(y, x, EdgeNode::Closed));
                        }
                    }
                    assert forall|x: int, y: int| #[trigger] g3.open_step(x, y) implies seen.contains(
                        x,
                    ) && seen.contains(y) by {
                        if !((x == current && y == w) || (x == w && y == current)) {
                            assert(g3.has_record(x, y, EdgeNode::Open));
                            assert(g2.has_record(x, y, EdgeNode::Open));
                            assert(g2.open_step(x, y));
                            assert(seen_before.contains(x) && seen_before.contains(y));
                        }
                    }
                    let parent1 = parent.insert(w as int, current as int);
                    let rank1 = rank.insert(w as int, rank[current as int] + 1);
                    assert forall|y: int| #[trigger] parent1.dom().contains(y) implies g3.open_step(
                        parent1[y],
                        y,
                    ) && rank1.dom().contains(parent1[y]) && rank1[parent1[y]] < rank1[y] by {
                        if y != w {
                            assert(g1.open_step(parent[y], y));
                            assert(g1.has_record(parent[y], y, EdgeNode::Open));
                            assert(g2.open_step(parent[y], y));
                        }
                    }
                    assert forall|x: int, y: int| #[trigger] g3.open_step(x, y) implies (
                    parent1.dom().contains(y) && parent1[y] == x) || (parent1.dom().contains(x)
                        && parent1[x] == y) by {
                        if !((x == current && y == w) || (x == w && y == current)) {
                            assert(g3.has_record(x, y, EdgeNode::Open));
                            assert(g2.has_record(x, y, EdgeNode::Open));
                            assert(g1.has_record(x, y, EdgeNode::Open));
                            assert(g1.open_step(x, y));
                        }
                    }
                    parent = parent1;
                    rank = rank1;
                    assert(rank.dom() =~= seen);
                    assert(tree_links(&g3, initial as int, parent, rank));
                    lemma_contains_push(stack@, current);
                    lemma_contains_push(stack@.push(current), w);
                }
                stack.push(current);
                stack.push(w);
                proof {
                    assert forall|v: int| #[trigger] seen.contains(v) implies stack@.contains(
                        v as u32,
                    ) || forall|y: int| #[trigger] maze.any_step(v, y) ==> seen.contains(y) by {
                        if v != w && v != current {
                            assert(seen_before.contains(v));
                            assert(set_int_range(0, n as int).contains(v));
                            if stack_before.contains(v as u32) {
                                assert(stack_before.drop_last().contains(v as u32));
                            } else {
                                assert forall|y: int| #[trigger] maze.any_step(v, y) implies seen.contains(y) by {
                                    assert(g1.any_step(v, y));
                                }
                            }
                        }
                    }
                }
            },
            None => {
                proof {
                    assert forall|y: int| #[trigger] maze.any_step(current as int, y) implies seen.contains(y) by {
                        assert(visited@[y]);
                    }
                    assert forall|v: int| #[trigger] seen.contains(v) implies stack@.contains(
                        v as u32,
                    ) || forall|y: int| #[trigger] maze.any_step(v, y) ==> seen.contains(y) by {
                        if v != current {
                            assert(set_int_range(0, n as int).contains(v));
                            if stack_before.contains(v as u32) {
                                assert(stack_before.drop_last().contains(v as u32));
                            } else {
                                assert forall|y: int| #[trigger] maze.any_step(v, y) implies seen.contains(y) by {
                                    assert(g1.any_step(v, y));
                                }
                            }
                        }
                    }
                }
            },
        }
        proof {
            lemma_int_range(0, n as int);
            lemma_len_subset(seen, set_int_range(0, n as int));
        }
    }
    proof {
        assert forall|v: int, w: int| seen.contains(v) && #[trigger] maze.any_step(v, w) implies seen.contains(w) by {
            assert(!stack@.contains(v as u32));
        }
        assert forall|c: int| #[trigger] g0.walk_reachable(initial as int, c) implies maze.open_reachable(
            initial as int,
            c,
        ) by {
            let p = choose|p: Seq<u32>| #[trigger] g0.is_walk(p) && p[0] == initial && p.last() == c;
            assert forall|i: int| 0 <= i < p.len() - 1 implies #[trigger] maze.any_step(
                p[i] as int,
                p[i + 1] as int,
            ) by {
                assert(g0.any_step(p[i] as int, p[i + 1] as int));
            }
            assert forall|v: int, w: int| seen.contains(v) && #[trigger] maze.any_step(v, w) implies seen.contains(w) by {
                assert(!stack@.contains(v as u32));
            }
            lemma_closed_holds_walk(*maze, p, p.len() - 1, seen);
        }
        assert forall|c: int| rank.dom().contains(c) <==> #[trigger] maze.open_reachable(
            initial as int,
            c,
        ) by {
            if maze.open_reachable(initial as int, c) {
                let p = choose|p: Seq<u32>|
                    #[trigger] maze.is_open_path(p) && p[0] == initial && p.last() == c;
                assert forall|i: int| 0 <= i < p.len() - 1 implies #[trigger] maze.any_step(
                    p[i] as int,
                    p[i + 1] as int,
                ) by {
                    assert(maze.open_step(p[i] as int, p[i + 1] as int));
                    let k = choose|k: int|
                        0 <= k < maze.edges(p[i] as int).unwrap().len() && #[trigger] maze.edges(
                            p[i] as int,
                        ).unwrap()[k] == (p[i + 1], EdgeNode::Open);
                    assert(maze.edges(p[i] as int).unwrap()[k].0 == p[i + 1]);
                }
                assert(maze.is_walk(p));
                lemma_closed_holds_walk(*maze, p, p.len() - 1, seen);
            }
        }
        assert(tree_links(maze, initial as int, parent, rank));
        assert forall|x: int| !g0.walk_reachable(initial as int, x) implies #[trigger] maze.edges(x)
            == g0.edges(x) by {
            if seen.contains(x) {
                assert(maze.open_reachable(initial as int, x));
                let p = choose|p: Seq<u32>|
                    #[trigger] maze.is_open_path(p) && p[0] == initial && p.last() == x;
                assert forall|i: int| 0 <= i < p.len() - 1 implies #[trigger] g0.any_step(
                    p[i] as int,
                    p[i + 1] as int,
                ) by {
                    assert(maze.open_step(p[i] as int, p[i + 1] as int));
                    let k = choose|k: int|
                        0 <= k < maze.edges(p[i] as int).unwrap().len() && #[trigger] maze.edges(
                            p[i] as int,
                        ).unwrap()[k] == (p[i + 1], EdgeNode::Open);
                    assert(maze.edges(p[i] as int).unwrap()[k].0 == p[i + 1]);
                    assert(maze.any_step(p[i] as int, p[i + 1] as int));
                }
                assert(g0.is_walk(p));
            }
        }
        if g0.edges(initial as int) is None {
            assert forall|x: int| #[trigger] maze.edges(x) == g0.edges(x) by {
                if g0.walk_reachable(initial as int, x) {
                    let p = choose|p: Seq<u32>| #[trigger] g0.is_walk(p) && p[0] == initial && p.last() == x;
                    if p.len() > 1 {
                        assert(g0.any_step(p[0] as int, p[0int + 1] as int));
                    }
                    assert(maze.edges(initial as int) is None);
                }
            }
        }
    }
}

/// The unordered pairs of cells `(a, b)`, `a < b`, joined by an open passage.
pub open spec fn passages(g: &Graph) -> Set<(int, int)> {
    Set::new(|e: (int, int)| e.0 < e.1 && (g.open_step(e.0, e.1) || g.open_step(e.1, e.0)))
}

/// The cells reachable from `root` through open passages.
pub open spec fn reach_set(g: &Graph, root: int) -> Set<int> {
    Set::new(|c: int| g.open_reachable(root, c))
}

/// The passage between a cell and its parent, as an ordered pair.
spec fn link_of(parent: Map<int, int>) -> spec_fn(int) -> (int, int) {
    |y: int|
        if y < parent[y] {
            (y, parent[y])
        } else {
            (parent[y], y)
        }
}

/// A tree of passages over `n` cells has exactly `n - 1` passages.
pub proof fn lemma_tree_passage_count(g: &Graph, root: int, parent: Map<int, int>, rank: Map<int, nat>)
    requires
        tree_links(g, root, parent, rank),
    ensures
        passages(g).finite(),
        passages(g).len() + 1 == rank.dom().len(),
{
    let f = link_of(parent);
    let x = parent.dom();
    assert(x =~= rank.dom().remove(root));
    assert forall|y1: int, y2: int| x.contains(y1) && x.contains(y2) && #[trigger] f(y1) == #[trigger] f(y2)
        implies y1 == y2 by {
        if y1 != y2 {
            assert(rank[parent[y1]] < rank[y1]);
            assert(rank[parent[y2]] < rank[y2]);
        }
    }
    assert(vstd::relations::injective_on(f, x));
    assert forall|e: (int, int)| #[trigger] passages(g).contains(e) <==> x.map(f).contains(e) by {
        if passages(g).contains(e) {
            if g.open_step(e.0, e.1) {
                if parent.dom().contains(e.1) && parent[e.1] == e.0 {
                    assert(f(e.1) == e);
                } else {
                    assert(f(e.0) == e);
                }
            } else {
                assert(g.open_step(e.1, e.0));
                if parent.dom().contains(e.0) && parent[e.0] == e.1 {
                    assert(f(e.0) == e);
                } else {
                    assert(f(e.1) == e);
                }
            }
        }
        if x.map(f).contains(e) {
            let y = choose|y: int| x.contains(y) && f(y) == e;
            assert(g.open_step(parent[y], y));
            assert(rank[parent[y]] < rank[y]);
        }
    }
    assert(passages(g) =~= x.map(f));
    vstd::set_lib::lemma_map_size(x, passages(g), f);
}

/// A carve leaves a tree over the cells it reaches: one passage fewer than
/// cells. On a grid whose cells it all reaches, that is `side * side - 1`.
pub proof fn lemma_carved_passage_count(g0: &Graph, g: &Graph, initial: u32)
    requires
        carved_from(g0, g, initial),
    ensures
        reach_set(g, initial as int).finite(),
        passages(g).finite(),
        passages(g).len() + 1 == reach_set(g, initial as int).len(),
{
    let (parent, rank) = choose|parent: Map<int, int>, rank: Map<int, nat>|
        #[trigger] tree_links(g, initial as int, parent, rank) && forall|c: int|
            rank.dom().contains(c) <==> #[trigger] g.open_reachable(initial as int, c);
    assert(rank.dom() =~= reach_set(g, initial as int));
    lemma_tree_passage_count(g, initial as int, parent, rank);
}

/// Carving a full grid from one of its cells leaves every cell of the grid,
/// and no other, reachable through open passages, and opens exactly
/// `side * side - 1` of them. Between neighbours of the grid, the passage is
/// open in one direction exactly when it is open in the other.
pub proof fn lemma_carved_grid(g0: &Graph, g: &Graph, side: int, initial: u32)
    requires
        is_full_grid(g0, side),
        initial < side * side,
        carved_from(g0, g, initial),
    ensures
        forall|c: int| #[trigger] g.open_reachable(initial as int, c) <==> 0 <= c < side * side,
        passages(g).len() == side * side - 1,
        forall|u: int, v: int|
            #[trigger] g.any_step(u, v) ==> (g.open_step(u, v) <==> g.open_step(v, u)),
{
    assert forall|u: int, v: int| #[trigger] g.any_step(u, v) implies (g.open_step(u, v) <==> g.open_step(v, u)) by {
        assert(g0.any_step(u, v));
        lemma_grid_step_back(g0, side, u, v);
        assert(g.any_step(v, u));
        g.lemma_open_both_ways(u, v);
    }
    assert forall|c: int| #[trigger] g.open_reachable(initial as int, c) <==> 0 <= c < side * side by {
        if 0 <= c < side * side {
            lemma_grid_connected(g0, side, initial as int, c);
        }
        if g.open_reachable(initial as int, c) && c != initial {
            let p = choose|p: Seq<u32>| #[trigger] g.is_open_path(p) && p[0] == initial && p.last() == c;
            let k = p.len() - 2;
            let a = p[k] as int;
            assert(g.open_step(a, p[k + 1] as int));
            let i = choose|i: int|
                0 <= i < g.edges(a).unwrap().len() && #[trigger] g.edges(a).unwrap()[i] == (
                    c as u32,
                    EdgeNode::Open,
                );
            assert(g.edges(a).unwrap()[i].0 == c);
            assert(g.any_step(a, c));
            assert(g0.any_step(a, c));
            let j = choose|j: int| 0 <= j < g0.edges(a).unwrap().len() && #[trigger] g0.edges(a).unwrap()[j].0 == c;
            if !(0 <= a < side * side) {
                assert(g0.edges(a) is None);
            }
            lemma_grid_steps(g0, side, a);
        }
    }
    lemma_carved_passage_count(g0, g, initial);
    vstd::set_lib::lemma_int_range(0, side * side);
    assert(reach_set(g, initial as int) =~= vstd::set_lib::set_int_range(0, side * side));
}

} // verus!
