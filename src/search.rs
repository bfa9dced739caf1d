use vstd::prelude::*;
use vstd::set_lib::{lemma_int_range, lemma_len_subset, set_int_range};
use crate::graph::{EdgeNode, Graph};

verus! {

/// What a depth-first search reports: the cells in the order they were
/// explored, the route it settled on, and whether the target was reached.
pub struct PathTrace {
    pub explored: Vec<u32>,
    pub path: Vec<u32>,
    pub found: bool,
}

/// The event stream of a trace: one `(cell, false)` per explored cell, then
/// one `(cell, true)` per cell of the route.
pub open spec fn trace_events(explored: Seq<u32>, path: Seq<u32>) -> Seq<(u32, bool)> {
    explored.map_values(|c: u32| (c, false)) + path.map_values(|c: u32| (c, true))
}

impl PathTrace {
    /// The trace as `(cell, is_final_path)` events, in emission order.
    pub fn events(&self) -> (r: Vec<(u32, bool)>)
        ensures
            r@ == trace_events(self.explored@, self.path@),
    {
        let mut r: Vec<(u32, bool)> = Vec::new();
        let mut i: usize = 0;
        while i < self.explored.len()
            invariant
                i <= self.explored@.len(),
                r@ == self.explored@.subrange(0, i as int).map_values(|c: u32| (c, false)),
            decreases self.explored@.len() - i,
        {
            r.push((self.explored[i], false));
            i = i + 1;
            assert(r@ =~= self.explored@.subrange(0, i as int).map_values(|c: u32| (c, false)));
        }
        assert(self.explored@.subrange(0, i as int) =~= self.explored@);
        let ghost head = r@;
        let mut j: usize = 0;
        while j < self.path.len()
            invariant
                i == self.explored@.len(),
                j <= self.path@.len(),
                head == self.explored@.map_values(|c: u32| (c, false)),
                r@ == head + self.path@.subrange(0, j as int).map_values(|c: u32| (c, true)),
            decreases self.path@.len() - j,
        {
            r.push((self.path[j], true));
            j = j + 1;
            assert(r@ =~= head + self.path@.subrange(0, j as int).map_values(|c: u32| (c, true)));
        }
        assert(self.path@.subrange(0, j as int) =~= self.path@);
        r
    }
}

/// Every cell of an open path that starts inside a set closed under open
/// passages lies in that set.
proof fn lemma_closed_holds_path(g: &Graph, p: Seq<u32>, k: int, seen: Set<int>)
    requires
        g.is_open_path(p),
        0 <= k < p.len(),
        seen.contains(p[0] as int),
        forall|v: int, w: int| seen.contains(v) && #[trigger] g.open_step(v, w) ==> seen.contains(w),
    ensures
        seen.contains(p[k] as int),
    decreases k,
{
    if k > 0 {
        lemma_closed_holds_path(g, p, k - 1, seen);
        assert(g.open_step(p[k - 1] as int, p[(k - 1) + 1] as int));
    }
}

/// A set of cells that holds `s` and is closed under open passages holds every
/// cell that is reachable from `s`.
proof fn lemma_closed_holds_reachable(g: &Graph, s: int, t: int, seen: Set<int>)
    requires
        seen.contains(s),
        forall|v: int, w: int| seen.contains(v) && #[trigger] g.open_step(v, w) ==> seen.contains(w),
        g.open_reachable(s, t),
    ensures
        seen.contains(t),
{
    let p = choose|p: Seq<u32>| #[trigger] g.is_open_path(p) && p[0] == s && p.last() == t;
    lemma_closed_holds_path(g, p, p.len() - 1, seen);
}

/// Some entry of the stack `s` holds cell `w`.
spec fn on_stack(s: Seq<(u32, usize)>, w: int) -> bool {
    exists|k: int| 0 <= k < s.len() && #[trigger] s[k].0 == w
}

/// Pushing onto the stack keeps every cell it held and adds the new one.
proof fn lemma_on_stack_push(s: Seq<(u32, usize)>, e: (u32, usize))
    ensures
        forall|w: int| on_stack(s, w) ==> #[trigger] on_stack(s.push(e), w),
        on_stack(s.push(e), e.0 as int),
{
    assert forall|w: int| on_stack(s, w) implies #[trigger] on_stack(s.push(e), w) by {
        let k = choose|k: int| 0 <= k < s.len() && #[trigger] s[k].0 == w;
        assert(s.push(e)[k] == s[k]);
    }
    assert(s.push(e)[s.len() as int] == e);
}

/// Popping the stack keeps every cell other than the one on top.
proof fn lemma_on_stack_drop_last(s: Seq<(u32, usize)>, w: int)
    requires
        s.len() > 0,
        on_stack(s, w),
        s.last().0 != w,
    ensures
        on_stack(s.drop_last(), w),
{
    let k = choose|k: int| 0 <= k < s.len() && #[trigger] s[k].0 == w;
    assert(s.drop_last()[k] == s[k]);
}

/// A cell without an edge list reaches only itself.
proof fn lemma_no_edges_reaches_self(g: &Graph, s: int, t: int)
    requires
        g.edges(s) is None,
        g.open_reachable(s, t),
    ensures
        t == s,
{
    let p = choose|p: Seq<u32>| #[trigger] g.is_open_path(p) && p[0] == s && p.last() == t;
    if p.len() > 1 {
        assert(g.open_step(p[0] as int, p[0int + 1] as int));
    }
}

/// Every explored cell is reachable from `start` and is explored once; the
/// route runs from `start` along open passages to `end`, repeating no cell,
/// exactly when `end` is reachable; otherwise every reachable cell is explored.
pub open spec fn search_result(g: &Graph, start: u32, end: u32, r: PathTrace) -> bool {
    &&& r.found <==> g.open_reachable(start as int, end as int)
    &&& r.explored@.len() > 0
    &&& r.explored@[0] == start
    &&& r.explored@.no_duplicates()
    &&& forall|i: int|
        0 <= i < r.explored@.len() ==> g.open_reachable(start as int, #[trigger] r.explored@[i] as int)
    &&& r.found ==> {
        &&& g.is_open_path(r.path@)
        &&& r.path@[0] == start
        &&& r.path@.last() == end
        &&& r.explored@.last() == end
        &&& r.path@.no_duplicates()
    }
    &&& !r.found ==> r.path@.len() == 0
    &&& !r.found ==> forall|c: int|
        #[trigger] g.open_reachable(start as int, c) ==> r.explored@.contains(c as u32)
}

/// Depth-first search from `start` to `end` through open passages.
///
/// Cells are taken from a stack; each one taken for the first time is
/// explored, and its open neighbours not yet explored are stacked in the order
/// of its edge list. Each stacked cell remembers how long the route was when it
/// was stacked, so that taking it cuts the route back to its parent before
/// extending it. The search stops when `end` is explored, or when the stack
/// runs dry, in which case `end` is unreachable and the route is empty.
pub fn depth_find_path(start: u32, end: u32, maze: &Graph) -> (r: PathTrace)
    requires
        maze.wf(),
    ensures
        search_result(maze, start, end, r),
{
    let n: usize = maze.adjacency_slots();
    if start as usize >= n {
        proof {
            maze.lemma_edges_in_slots(start as int);
            if maze.open_reachable(start as int, end as int) {
                lemma_no_edges_reaches_self(maze, start as int, end as int);
            }
            assert(maze.is_open_path(seq![start]));
            assert forall|c: int| #[trigger] maze.open_reachable(start as int, c) implies seq![
                start,
            ].contains(c as u32) by {
                lemma_no_edges_reaches_self(maze, start as int, c);
                assert(seq![start][0] == start);
            }
        }
        let found = start == end;
        let path = if found { vec![start] } else { Vec::new() };
        return PathTrace { explored: vec![start], path, found };
    }
    let mut visited: Vec<bool> = Vec::new();
    while visited.len() < n
        invariant
            visited@.len() <= n,
            forall|k: int| 0 <= k < visited@.len() ==> !visited@[k],
        decreases n - visited.len(),
    {
        visited.push(false);
    }
    let mut stack: Vec<(u32, usize)> = vec![(start, 0)];
    let mut path: Vec<u32> = Vec::new();
    let mut explored: Vec<u32> = Vec::new();
    let mut found = false;
    let ghost mut seen: Set<int> = Set::empty();
    proof {
        lemma_int_range(0, n as int);
    }
    while stack.len() > 0 && !found
        invariant
            n == maze.slots(),
            (start as int) < n,
            maze.wf(),
            visited@.len() == n,
            seen.subset_of(set_int_range(0, n as int)),
            forall|c: int| 0 <= c < n ==> (visited@[c] <==> seen.contains(c)),
            forall|i: int| 0 <= i < explored@.len() ==> seen.contains(#[trigger] explored@[i] as int),
            explored@.no_duplicates(),
            forall|c: int| #[trigger] seen.contains(c) ==> explored@.contains(c as u32),
            path@.no_duplicates(),
            forall|i: int| 0 <= i < path@.len() ==> seen.contains(#[trigger] path@[i] as int),
            forall|i: int|
                0 <= i < explored@.len() ==> maze.open_reachable(
                    start as int,
                    #[trigger] explored@[i] as int,
                ),
            explored@.len() == 0 ==> stack@ == seq![(start, 0usize)] && path@.len() == 0 && seen
                == Set::<int>::empty(),
            explored@.len() > 0 ==> explored@[0] == start && seen.contains(start as int),
            path@.len() > 0 ==> maze.is_open_path(path@) && path@[0] == start,
            forall|k: int|
                #![trigger stack@[k]]
                0 <= k < stack@.len() ==> {
                    &&& stack@[k].0 < n
                    &&& stack@[k].1 <= path@.len()
                    &&& stack@[k].1 == 0 ==> stack@[k].0 == start
                    &&& stack@[k].1 > 0 ==> maze.open_step(
                        path@[stack@[k].1 - 1] as int,
                        stack@[k].0 as int,
                    )
                },
            forall|k1: int, k2: int|
                0 <= k1 < k2 < stack@.len() ==> #[trigger] stack@[k1].1 <= #[trigger] stack@[k2].1,
            found ==> path@.len() > 0 && path@.last() == end && explored@.len() > 0
                && explored@.last() == end,
            !found ==> !seen.contains(end as int),
            !found ==> forall|v: int, w: int|
                seen.contains(v) && #[trigger] maze.open_step(v, w) ==> seen.contains(w) || on_stack(
                    stack@,
                    w,
                ),
        decreases n - seen.len(), stack@.len(),
    {
        proof {
            lemma_int_range(0, n as int);
            lemma_len_subset(seen, set_int_range(0, n as int));
        }
        let ghost seen_before = seen;
        let ghost stack_before = stack@;
        let (c, d) = stack.pop().unwrap();
        assert(stack_before[stack_before.len() - 1] == (c, d));
        assert(stack@ == stack_before.drop_last());
        proof {
            assert forall|w: int|
                on_stack(stack_before, w) && w != c implies #[trigger] on_stack(stack@, w) by {
                lemma_on_stack_drop_last(stack_before, w);
            }
        }
        if !visited[c as usize] {
            assert(!seen.contains(c as int));
            let ghost explored_before = explored@;
            visited.set(c as usize, true);
            explored.push(c);
            proof {
                assert forall|i: int, j: int|
                    0 <= i < explored@.len() && 0 <= j < explored@.len() && i != j implies explored@[i]
                    != explored@[j] by {
                    if i < explored_before.len() && j < explored_before.len() {
                        assert(explored_before[i] != explored_before[j]);
                    } else if i < explored_before.len() {
                        assert(seen.contains(explored_before[i] as int));
                    } else {
                        assert(seen.contains(explored_before[j] as int));
                    }
                }
                assert(explored@[explored@.len() - 1] == c);
                assert forall|x: int| #[trigger] seen.insert(c as int).contains(x) implies explored@.contains(
                    x as u32,
                ) by {
                    if x == c {
                        assert(explored@[explored@.len() - 1] == c);
                    } else {
                        let k = choose|k: int| 0 <= k < explored_before.len() && explored_before[k] == x as u32;
                        assert(explored@[k] == x as u32);
                    }
                }
            }
            proof {
                seen = seen.insert(c as int);
                assert(seen.len() == seen_before.len() + 1);
            }
            let ghost path_before = path@;
            path.truncate(d);
            path.push(c);
            assert(path@.subrange(0, d as int) == path_before.subrange(0, d as int));
            proof {
                assert forall|i: int| 0 <= i < path@.len() implies seen.contains(#[trigger] path@[i] as int) by {
                    if i < d {
                        assert(path@[i] == path_before[i]);
                        assert(seen_before.contains(path_before[i] as int));
                    }
                }
                assert forall|i: int, j: int|
                    0 <= i < path@.len() && 0 <= j < path@.len() && i != j implies path@[i] != path@[j] by {
                    if i < d && j < d {
                        assert(path@[i] == path_before[i]);
                        assert(path@[j] == path_before[j]);
                    } else if i < d {
                        assert(path@[i] == path_before[i]);
                        assert(seen_before.contains(path_before[i] as int));
                    } else if j < d {
                        assert(path@[j] == path_before[j]);
                        assert(seen_before.contains(path_before[j] as int));
                    }
                }
            }
            proof {
                assert forall|i: int| 0 <= i < path@.len() - 1 implies #[trigger] maze.open_step(
                    path@[i] as int,
                    path@[i + 1] as int,
                ) by {
                    if i + 1 < d {
                        assert(maze.open_step(path_before[i] as int, path_before[i + 1] as int));
                    }
                }
                assert(maze.is_open_path(path@));
                assert forall|i: int|
                    0 <= i < explored@.len() implies maze.open_reachable(
                    start as int,
                    #[trigger] explored@[i] as int,
                ) by {
                    if i == explored@.len() - 1 {
                        assert(maze.is_open_path(path@) && path@[0] == start && path@.last() == c);
                    }
                }
                assert forall|k: int|
                    #![trigger stack@[k]]
                    0 <= k < stack@.len() implies {
                    &&& stack@[k].0 < n
                    &&& stack@[k].1 <= path@.len()
                    &&& stack@[k].1 == 0 ==> stack@[k].0 == start
                    &&& stack@[k].1 > 0 ==> maze.open_step(
                        path@[stack@[k].1 - 1] as int,
                        stack@[k].0 as int,
                    )
                } by {
                    assert(stack@[k] == stack_before[k]);
                    assert(stack_before[k].1 <= d);
                    if stack@[k].1 > 0 {
                        assert(path@[stack@[k].1 - 1] == path_before[stack@[k].1 - 1]);
                    }
                }
            }
            if c == end {
                found = true;
            } else {
                let depth: usize = path.len();
                match maze.get_edges(c) {
                    Some(edges) => {
                        let mut i: usize = 0;
                        while i < edges.len()
                            invariant
                                i <= edges@.len(),
                                maze.edges(c as int) == Some(edges@),
                                maze.wf(),
                                n == maze.slots(),
                                visited@.len() == n,
                                depth == path@.len(),
                                depth > 0,
                                path@[depth - 1] == c,
                                forall|k: int|
                                    #![trigger stack@[k]]
                                    0 <= k < stack@.len() ==> {
                                        &&& stack@[k].0 < n
                                        &&& stack@[k].1 <= path@.len()
                                        &&& stack@[k].1 == 0 ==> stack@[k].0 == start
                                        &&& stack@[k].1 > 0 ==> maze.open_step(
                                            path@[stack@[k].1 - 1] as int,
                                            stack@[k].0 as int,
                                        )
                                    },
                                forall|k1: int, k2: int|
                                    0 <= k1 < k2 < stack@.len() ==> #[trigger] stack@[k1].1
                                        <= #[trigger] stack@[k2].1,
                                forall|v: int, w: int|
                                    seen_before.contains(v) && #[trigger] maze.open_step(v, w)
                                        ==> seen.contains(w) || on_stack(stack@, w),
                                forall|j: int|
                                    0 <= j < i && #[trigger] edges@[j].1 == EdgeNode::Open
                                        ==> visited@[edges@[j].0 as int] || on_stack(
                                        stack@,
                                        edges@[j].0 as int,
                                    ),
                            decreases edges@.len() - i,
                        {
                            let (w, st) = edges[i];
                            assert(maze.edges(c as int).unwrap()[i as int] == (w, st));
                            assert(w < n);
                            if st == EdgeNode::Open && !visited[w as usize] {
                                proof {
                                    lemma_on_stack_push(stack@, (w, depth));
                                }
                                stack.push((w, depth));
                                assert(maze.open_step(c as int, w as int));
                            }
                            i = i + 1;
                        }
                        proof {
                            assert forall|v: int, w: int|
                                seen.contains(v) && #[trigger] maze.open_step(v, w)
                                    implies seen.contains(w) || on_stack(stack@, w) by {
                                if v == c {
                                    let j = choose|j: int|
                                        0 <= j < edges@.len() && #[trigger] edges@[j] == (
                                            w as u32,
                                            EdgeNode::Open,
                                        );
                                    assert(edges@[j].1 == EdgeNode::Open);
                                }
                            }
                        }
                    },
                    None => {},
                }
            }
        } else {
            proof {
                assert(seen.contains(c as int));
            }
        }
        proof {
            lemma_int_range(0, n as int);
            lemma_len_subset(seen, set_int_range(0, n as int));
        }
    }
    proof {
        if !found {
            if maze.open_reachable(start as int, end as int) {
                lemma_closed_holds_reachable(maze, start as int, end as int, seen);
            }
            assert forall|c: int| #[trigger] maze.open_reachable(start as int, c) implies explored@.contains(
                c as u32,
            ) by {
                lemma_closed_holds_reachable(maze, start as int, c, seen);
            }
        }
    }
    if !found {
        path = Vec::new();
    }
    PathTrace { explored, path, found }
}

} // verus!
