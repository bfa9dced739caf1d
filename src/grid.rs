use vstd::prelude::*;
use vstd::arithmetic::div_mod::lemma_fundamental_div_mod_converse;
use crate::graph::{EdgeNode, Graph, VertexNode};

verus! {

/// The closed records that cell `id` of a `side × side` grid starts with: to
/// its left, right, upper and lower neighbour, in that order, where the
/// neighbour lies inside the grid. Cell `(x, y)` has id `x + y * side`.
pub open spec fn grid_edges(side: int, id: int) -> Seq<(u32, EdgeNode)> {
    let x = id % side;
    let y = id / side;
    (if x > 0 {
        seq![((id - 1) as u32, EdgeNode::Closed)]
    } else {
        seq![]
    }) + (if x + 1 < side {
        seq![((id + 1) as u32, EdgeNode::Closed)]
    } else {
        seq![]
    }) + (if y > 0 {
        seq![((id - side) as u32, EdgeNode::Closed)]
    } else {
        seq![]
    }) + (if y + 1 < side {
        seq![((id + side) as u32, EdgeNode::Closed)]
    } else {
        seq![]
    })
}

/// Builds the full `square_size × square_size` grid graph: every cell gets a
/// vertex, and a closed record towards each of its neighbours inside the grid.
/// A grid of side 1 has one vertex and no edge list; a grid of side 0 is not
/// a grid and is refused.
pub fn new_maze(square_size: u32) -> (maze: Graph)
    requires
        1 <= square_size,
        square_size as int * square_size as int <= u32::MAX as int + 1,
    ensures
        maze.wf(),
        maze.all_closed(),
        square_size > 1 ==> is_full_grid(&maze, square_size as int),
        forall|id: int|
            0 <= id < square_size * square_size ==> #[trigger] maze.vertex(id) == Some(VertexNode)
                && maze.edges(id) == if square_size > 1 {
                Some(grid_edges(square_size as int, id))
            } else {
                None
            },
        forall|id: int|
            !(0 <= id < square_size * square_size) ==> #[trigger] maze.vertex(id) is None
                && maze.edges(id) is None,
{
    let side = square_size;
    let ghost s = side as int;
    let mut maze = Graph::new();
    let mut y: u32 = 0;
    while y < side
        invariant
            0 <= y <= side,
            s == side,
            s * s <= u32::MAX as int + 1,
            maze.wf(),
            forall|id: int|
                0 <= id < y * s ==> #[trigger] maze.vertex(id) == Some(VertexNode) && maze.edges(
                    id,
                ) == if s > 1 {
                    Some(grid_edges(s, id))
                } else {
                    None
                },
            forall|id: int| !(0 <= id < y * s) ==> #[trigger] maze.vertex(id) is None && maze.edges(id) is None,
        decreases side - y,
    {
        let mut x: u32 = 0;
        while x < side
            invariant
                0 <= x <= side,
                0 <= y < side,
                s == side,
                s * s <= u32::MAX as int + 1,
                maze.wf(),
                forall|id: int|
                    0 <= id < x + y * s ==> #[trigger] maze.vertex(id) == Some(VertexNode)
                        && maze.edges(id) == if s > 1 {
                        Some(grid_edges(s, id))
                    } else {
                        None
                    },
                forall|id: int|
                    !(0 <= id < x + y * s) ==> #[trigger] maze.vertex(id) is None && maze.edges(id)
                        is None,
            decreases side - x,
        {
            proof {
                assert(x + y * s < s * s) by (nonlinear_arith)
                    requires
                        x < s,
                        y < s,
                ;
                assert(y * s + s <= s * s) by (nonlinear_arith)
                    requires
                        y < s,
                ;
                lemma_fundamental_div_mod_converse(x + y * s, s, y as int, x as int);
            }
            let row: u32 = y * side;
            let id: u32 = x + row;
            let ghost cur = id as int;
            maze.push_vertex(id, VertexNode);
            let ghost mut pushed: Seq<(u32, EdgeNode)> = Seq::empty();
            if x > 0 {
                maze.push_edge(id, (x - 1) + row, EdgeNode::Closed);
                proof {
                    pushed = pushed.push((((x - 1) + row) as u32, EdgeNode::Closed));
                }
            }
            assert(maze.edges(cur) == if pushed.len() > 0 { Some(pushed) } else { None });
            if x + 1 < side {
                maze.push_edge(id, (x + 1) + row, EdgeNode::Closed);
                proof {
                    pushed = pushed.push((((x + 1) + row) as u32, EdgeNode::Closed));
                }
            }
            assert(maze.edges(cur) == if pushed.len() > 0 { Some(pushed) } else { None });
            if y > 0 {
                proof {
                    assert(y * s >= s) by (nonlinear_arith)
                        requires
                            y > 0,
                            s >= 0,
                    ;
                }
                maze.push_edge(id, x + (row - side), EdgeNode::Closed);
                proof {
                    pushed = pushed.push(((cur - s) as u32, EdgeNode::Closed));
                }
            }
            assert(maze.edges(cur) == if pushed.len() > 0 { Some(pushed) } else { None });
            if y + 1 < side {
                proof {
                    assert(x + y * s + s < s * s) by (nonlinear_arith)
                        requires
                            x < s,
                            y + 1 < s,
                    ;
                }
                maze.push_edge(id, x + (row + side), EdgeNode::Closed);
                proof {
                    pushed = pushed.push(((cur + s) as u32, EdgeNode::Closed));
                }
            }
            assert(maze.edges(cur) == if pushed.len() > 0 { Some(pushed) } else { None });
            proof {
                assert(pushed =~= grid_edges(s, cur));
                assert(s > 1 ==> pushed.len() > 0);
            }
            x = x + 1;
        }
        proof {
            assert(s + y * s == (y + 1) * s) by (nonlinear_arith);
        }
        y = y + 1;
    }
    proof {
        assert(y * s == s * s);
        assert forall|u: int, i: int|
            #![trigger maze.edges(u).unwrap()[i]]
            maze.edges(u) is Some && 0 <= i < maze.edges(u).unwrap().len()
                implies maze.edges(u).unwrap()[i].1 == EdgeNode::Closed by {
            if !(0 <= u < s * s) {
                assert(maze.vertex(u) is None);
            }
            assert(maze.vertex(u) == Some(VertexNode));
            let e = grid_edges(s, u);
            assert(forall|k: int| 0 <= k < e.len() ==> (#[trigger] e[k]).1 == EdgeNode::Closed);
        }
        if s > 1 {
            assert forall|id: int|
                0 <= id < s * s implies #[trigger] maze.edges(id) is Some && maze.edges(id).unwrap()
                    =~= grid_edges(s, id) by {
                assert(maze.vertex(id) == Some(VertexNode));
            }
            assert forall|id: int| !(0 <= id < s * s) implies #[trigger] maze.edges(id) is None by {
                assert(maze.vertex(id) is None);
            }
        }
    }
    maze
}

/// `g` holds the edge lists of a full `side × side` grid, whatever their states.
pub open spec fn is_full_grid(g: &Graph, side: int) -> bool {
    &&& side >= 2
    &&& side * side <= u32::MAX as int + 1
    &&& forall|id: int|
        0 <= id < side * side ==> #[trigger] g.edges(id) is Some && g.edges(id).unwrap()
            =~= grid_edges(side, id)
    &&& forall|id: int| !(0 <= id < side * side) ==> #[trigger] g.edges(id) is None
}

/// The four moves out of a grid cell, where they stay inside the grid.
pub(crate) proof fn lemma_grid_steps(g: &Graph, side: int, id: int)
    requires
        is_full_grid(g, side),
        0 <= id < side * side,
    ensures
        0 <= id % side < side,
        0 <= id / side < side,
        id == (id / side) * side + id % side,
        forall|k: int|
            0 <= k < g.edges(id).unwrap().len() ==> 0 <= (#[trigger] g.edges(id).unwrap()[k]).0
                < side * side,
        forall|k: int|
            0 <= k < g.edges(id).unwrap().len() ==> {
                let t = (#[trigger] g.edges(id).unwrap()[k]).0 as int;
                (t == id - 1 && id % side > 0) || (t == id + 1 && id % side + 1 < side) || (t == id
                    - side && id / side > 0) || (t == id + side && id / side + 1 < side)
            },
        id % side > 0 ==> g.any_step(id, id - 1),
        id % side + 1 < side ==> g.any_step(id, id + 1),
        id / side > 0 ==> g.any_step(id, id - side),
        id / side + 1 < side ==> g.any_step(id, id + side),
{
    let x = id % side;
    let y = id / side;
    vstd::arithmetic::div_mod::lemma_fundamental_div_mod(id, side);
    assert(0 <= x < side);
    assert(0 <= y < side) by {
        if y >= side {
            assert(side * y >= side * side) by (nonlinear_arith)
                requires
                    y >= side,
                    side >= 2,
            ;
        }
        if y < 0 {
            assert(side * y <= -side) by (nonlinear_arith)
                requires
                    y < 0,
                    side >= 2,
            ;
        }
    }
    assert(side * y + side <= side * side) by (nonlinear_arith)
        requires
            0 <= y < side,
            side >= 2,
    ;
    assert(y + 1 < side ==> side * y + side <= side * side - side) by (nonlinear_arith)
        requires
            0 <= y,
            side >= 2,
    ;
    assert(y > 0 ==> side * y >= side) by (nonlinear_arith)
        requires
            0 <= y,
            side >= 2,
    ;
    assert(y * side == side * y) by (nonlinear_arith);
    let e = g.edges(id).unwrap();
    let l: int = if x > 0 { 1 } else { 0 };
    let r: int = if x + 1 < side { 1 } else { 0 };
    let u: int = if y > 0 { 1 } else { 0 };
    if x > 0 {
        assert(e[0].0 == id - 1);
    }
    if x + 1 < side {
        assert(e[l].0 == id + 1);
    }
    if y > 0 {
        assert(e[l + r].0 == id - side);
    }
    if y + 1 < side {
        assert(e[l + r + u].0 == id + side);
    }
    let d: int = if y + 1 < side { 1 } else { 0 };
    assert(e.len() == l + r + u + d);
    assert forall|k: int| 0 <= k < e.len() implies {
        let t = (#[trigger] e[k]).0 as int;
        (t == id - 1 && x > 0) || (t == id + 1 && x + 1 < side) || (t == id - side && y > 0) || (t
            == id + side && y + 1 < side)
    } by {
        if k < l {
            assert(e[k].0 == id - 1);
        } else if k < l + r {
            assert(e[k].0 == id + 1);
        } else if k < l + r + u {
            assert(e[k].0 == id - side);
        } else {
            assert(e[k].0 == id + side);
        }
    }
    assert forall|k: int| 0 <= k < e.len() implies 0 <= (#[trigger] e[k]).0 < side * side by {
        if k < l {
            assert(e[k].0 == id - 1);
        } else if k < l + r {
            assert(e[k].0 == id + 1);
        } else if k < l + r + u {
            assert(e[k].0 == id - side);
        } else {
            assert(e[k].0 == id + side);
        }
    }
}

/// A walk followed by a walk that starts where the first ends is a walk.
proof fn lemma_walk_join(g: &Graph, p: Seq<u32>, q: Seq<u32>)
    requires
        g.is_walk(p),
        g.is_walk(q),
        p.last() == q[0],
    ensures
        g.is_walk(p + q.drop_first()),
        (p + q.drop_first())[0] == p[0],
        (p + q.drop_first()).last() == q.last(),
{
    let r = p + q.drop_first();
    assert forall|i: int| 0 <= i < r.len() - 1 implies #[trigger] g.any_step(r[i] as int, r[i + 1] as int) by {
        if i < p.len() - 1 {
            assert(g.any_step(p[i] as int, p[i + 1] as int));
        } else {
            let k = i - (p.len() - 1);
            assert(r[i] == q[k]);
            assert(r[i + 1] == q[k + 1]);
            assert(g.any_step(q[k] as int, q[k + 1] as int));
        }
    }
}

/// Every cell of a full grid has a walk to and from cell 0.
proof fn lemma_grid_walks_zero(g: &Graph, side: int, c: int)
    requires
        is_full_grid(g, side),
        0 <= c < side * side,
    ensures
        exists|p: Seq<u32>| #[trigger] g.is_walk(p) && p[0] == c && p.last() == 0,
        exists|p: Seq<u32>| #[trigger] g.is_walk(p) && p[0] == 0 && p.last() == c,
    decreases c,
{
    if c == 0 {
        assert(g.is_walk(seq![0u32]));
    } else {
        lemma_grid_steps(g, side, c);
        vstd::arithmetic::div_mod::lemma_fundamental_div_mod(c, side);
        let prev: int = if c % side > 0 { c - 1 } else { c - side };
        assert(0 <= prev < c) by {
            if c % side == 0 {
                let q = c / side;
                assert(q > 0) by (nonlinear_arith)
                    requires
                        c == q * side,
                        c > 0,
                        side >= 2,
                ;
            }
        }
        lemma_grid_steps(g, side, prev);
        vstd::arithmetic::div_mod::lemma_fundamental_div_mod(prev, side);
        assert((c / side) * side == side * (c / side)) by (nonlinear_arith);
        assert((c / side - 1) * side == side * (c / side) - side) by (nonlinear_arith);
        if c % side > 0 {
            vstd::arithmetic::div_mod::lemma_fundamental_div_mod_converse(
                prev,
                side,
                c / side,
                c % side - 1,
            );
        } else {
            vstd::arithmetic::div_mod::lemma_fundamental_div_mod_converse(
                prev,
                side,
                c / side - 1,
                0,
            );
        }
        assert(g.any_step(c, prev));
        assert(g.any_step(prev, c));
        lemma_grid_walks_zero(g, side, prev);
        let p = choose|p: Seq<u32>| #[trigger] g.is_walk(p) && p[0] == prev && p.last() == 0;
        let q = choose|q: Seq<u32>| #[trigger] g.is_walk(q) && q[0] == 0 && q.last() == prev;
        let down = seq![c as u32, prev as u32];
        let up = seq![prev as u32, c as u32];
        assert(g.is_walk(down)) by {
            assert(g.any_step(down[0] as int, down[0int + 1] as int));
        }
        assert(g.is_walk(up)) by {
            assert(g.any_step(up[0] as int, up[0int + 1] as int));
        }
        lemma_walk_join(g, down, p);
        lemma_walk_join(g, q, up);
    }
}

/// Any two cells of a full grid are joined by a walk.
pub proof fn lemma_grid_connected(g: &Graph, side: int, a: int, b: int)
    requires
        is_full_grid(g, side),
        0 <= a < side * side,
        0 <= b < side * side,
    ensures
        g.walk_reachable(a, b),
{
    lemma_grid_walks_zero(g, side, a);
    lemma_grid_walks_zero(g, side, b);
    let p = choose|p: Seq<u32>| #[trigger] g.is_walk(p) && p[0] == a && p.last() == 0;
    let q = choose|q: Seq<u32>| #[trigger] g.is_walk(q) && q[0] == 0 && q.last() == b;
    lemma_walk_join(g, p, q);
}

/// Every record of a full grid has a record in the opposite direction.
pub proof fn lemma_grid_step_back(g: &Graph, side: int, u: int, v: int)
    requires
        is_full_grid(g, side),
        g.any_step(u, v),
    ensures
        g.any_step(v, u),
{
    if !(0 <= u < side * side) {
        assert(g.edges(u) is None);
    }
    lemma_grid_steps(g, side, u);
    let k = choose|k: int| 0 <= k < g.edges(u).unwrap().len() && #[trigger] g.edges(u).unwrap()[k].0 == v;
    assert(0 <= g.edges(u).unwrap()[k].0 < side * side);
    lemma_grid_steps(g, side, v);
    let x = u % side;
    let y = u / side;
    assert(y * side == side * y) by (nonlinear_arith);
    assert((y - 1) * side == y * side - side) by (nonlinear_arith);
    assert((y + 1) * side == y * side + side) by (nonlinear_arith);
    if v == u - 1 && x > 0 {
        vstd::arithmetic::div_mod::lemma_fundamental_div_mod_converse(v, side, y, x - 1);
    } else if v == u + 1 && x + 1 < side {
        vstd::arithmetic::div_mod::lemma_fundamental_div_mod_converse(v, side, y, x + 1);
    } else if v == u - side && y > 0 {
        vstd::arithmetic::div_mod::lemma_fundamental_div_mod_converse(v, side, y - 1, x);
    } else {
        vstd::arithmetic::div_mod::lemma_fundamental_div_mod_converse(v, side, y + 1, x);
    }
}

} // verus!
